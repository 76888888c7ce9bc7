//! What statements that define and show databases, tables and columns do.

use vstd::prelude::*;

use crate::engine::catalog;
use crate::engine::eval;
use crate::engine::executor;
use crate::engine::executor::{ExecV, ResultV};
use crate::engine::index;
use crate::engine::index::{IndexDefV, IndexType};
use crate::engine::maintain;
use crate::engine::schema;
use crate::engine::storage;
use crate::engine::storage::RowV;
use crate::engine::types;
use crate::engine::types::{ColumnV, DefaultV, NumbersV, Val};
use crate::names;
use crate::order::Order;
use crate::sql::ast::{
    ColumnSetting, ColumnSpec, DropKind, Expression, IndexSpec, Node, OptionToken, Path,
    SqlStatement, SqlType,
};
use crate::text;

verus! {

// ---------------------------------------------------------------------------
// Columns
// ---------------------------------------------------------------------------

/// The settings of a column hold the keyword for automatic numbers.
pub open spec fn has_numbers(settings: Seq<ColumnSetting>) -> bool {
    exists|k: int|
        0 <= k < settings.len() && (#[trigger] settings[k] matches ColumnSetting::Dialect(tokens)
            && exists|i: int|
            0 <= i < tokens@.len() && (#[trigger] tokens@[i] matches OptionToken::Word {
                value,
                quoted,
            } && !quoted && text::uppercase(value@) == "AUTO_INCREMENT"@))
}

/// The last of the settings that gives a default, if there is one.
pub open spec fn last_default(settings: Seq<ColumnSetting>) -> Option<Expression>
    decreases settings.len(),
{
    if settings.len() == 0 {
        None
    } else {
        match settings.last() {
            ColumnSetting::Default(e) => Some(e),
            _ => last_default(settings.drop_last()),
        }
    }
}

/// What a column has for a default: for a function `NOW` or `CURRENT_TIMESTAMP`, in any
/// case, the time of the insertion; for a literal its value; and nothing for anything
/// else.
pub open spec fn gives_default(n: NumbersV, e: Option<Expression>, d: Option<DefaultV>) -> bool {
    match e {
        None => d is None,
        Some(x) => match x.node {
            Node::Function(name) => if text::same_name(name@, "NOW"@) || text::same_name(
                name@,
                "CURRENT_TIMESTAMP"@,
            ) {
                d == Some(DefaultV::CurrentTimestamp)
            } else {
                d is None
            },
            _ => match eval::given_value(n, x) {
                Ok(v) => d == Some(DefaultV::Value(v)),
                Err(_) => d is None,
            },
        },
    }
}

/// The type under which a column of a definition is shown.
pub open spec fn type_shown(t: SqlType) -> Seq<char> {
    match t {
        SqlType::Int => "int"@,
        SqlType::BigInt => "bigint"@,
        SqlType::SmallInt => "smallint"@,
        SqlType::TinyInt => "tinyint"@,
        SqlType::Boolean => "tinyint"@,
        SqlType::Float => "float"@,
        SqlType::Double => "double"@,
        SqlType::Text => "text"@,
        SqlType::Blob => "text"@,
        SqlType::Varchar => "varchar"@,
        SqlType::Other => "varchar"@,
        SqlType::Char => "char(255)"@,
        SqlType::Date => "date"@,
        SqlType::Datetime => "datetime"@,
        SqlType::Timestamp => "timestamp"@,
        SqlType::Json => "json"@,
    }
}

proof fn lemma_char()
    ensures
        "char"@ + "("@ + text::nat_text(255) + ")"@ == "char(255)"@,
{
    reveal_strlit("char");
    reveal_strlit("(");
    reveal_strlit(")");
    reveal_strlit("char(255)");
    reveal_with_fuel(text::nat_text, 4);
    assert(text::nat_text(255) =~= seq!['2', '5', '5']);
    assert("char"@ + "("@ + text::nat_text(255) + ")"@ =~= "char(255)"@);
}

proof fn lemma_time_names(name: Seq<char>)
    ensures
        text::same_name(name, "NOW"@) == text::same_name(name, "now"@),
        text::same_name(name, "CURRENT_TIMESTAMP"@) == text::same_name(
            name,
            "current_timestamp"@,
        ),
{
    reveal_strlit("NOW");
    reveal_strlit("now");
    reveal_strlit("CURRENT_TIMESTAMP");
    reveal_strlit("current_timestamp");
    assert(text::ascii_lower_all("NOW"@) =~= text::ascii_lower_all("now"@));
    assert(text::ascii_lower_all("CURRENT_TIMESTAMP"@) =~= text::ascii_lower_all(
        "current_timestamp"@,
    ));
}

proof fn lemma_settings(n: NumbersV, c: ColumnV, settings: Seq<ColumnSetting>)
    requires
        !c.auto_increment,
        c.default_expr is None,
    ensures
        ({
            let d = schema::settings_applied(n, c, settings);
            &&& d.name == c.name && d.table == c.table && d.col_type == c.col_type
                && d.column_length == c.column_length
            &&& d.auto_increment == has_numbers(settings)
            &&& gives_default(n, last_default(settings), d.default_expr)
        }),
    decreases settings.len(),
{
    if settings.len() > 0 {
        let before = settings.drop_last();
        let last = settings.len() - 1;
        lemma_settings(n, c, before);
        assert(settings[last] == settings.last());
        let d = schema::settings_applied(n, c, settings);
        if has_numbers(before) {
            let k = choose|k: int|
                0 <= k < before.len() && (#[trigger] before[k] matches ColumnSetting::Dialect(
                    tokens,
                ) && exists|i: int|
                    0 <= i < tokens@.len() && (#[trigger] tokens@[i] matches OptionToken::Word {
                        value,
                        quoted,
                    } && !quoted && text::uppercase(value@) == "AUTO_INCREMENT"@));
            assert(settings[k] == before[k]);
            assert(has_numbers(settings));
        }
        if has_numbers(settings) {
            let k = choose|k: int|
                0 <= k < settings.len() && (#[trigger] settings[k] matches ColumnSetting::Dialect(
                    tokens,
                ) && exists|i: int|
                    0 <= i < tokens@.len() && (#[trigger] tokens@[i] matches OptionToken::Word {
                        value,
                        quoted,
                    } && !quoted && text::uppercase(value@) == "AUTO_INCREMENT"@));
            if k < last {
                assert(before[k] == settings[k]);
                assert(has_numbers(before));
            }
        }
        match settings.last() {
            ColumnSetting::Dialect(tokens) => {
                if exists|i: int|
                    0 <= i < tokens@.len() && schema::is_auto_increment(#[trigger] tokens@[i]) {
                    let i = choose|i: int|
                        0 <= i < tokens@.len() && schema::is_auto_increment(#[trigger] tokens@[i]);
                    assert(tokens@[i] is Word);
                    assert(has_numbers(settings)) by {
                        assert(settings[last] is Dialect);
                    }
                } else if has_numbers(settings) && !has_numbers(before) {
                    let i = choose|i: int|
                        0 <= i < tokens@.len() && (#[trigger] tokens@[i] matches OptionToken::Word {
                            value,
                            quoted,
                        } && !quoted && text::uppercase(value@) == "AUTO_INCREMENT"@);
                    assert(schema::is_auto_increment(tokens@[i]));
                }
            },
            ColumnSetting::Default(e) => {
                if let Node::Function(name) = e.node {
                    lemma_time_names(name@);
                }
            },
            ColumnSetting::Other => {},
        }
    }
}

/// What is shown of a default: its text, the words for the time of an insertion, and NULL
/// for none or an empty text.
pub open spec fn default_shown(n: NumbersV, d: Option<DefaultV>) -> Val {
    match d {
        None => Val::Null,
        Some(DefaultV::CurrentTimestamp) => Val::Text("CURRENT_TIMESTAMP"@),
        Some(DefaultV::Value(v)) => if types::val_text(n, v).len() == 0 {
            Val::Null
        } else {
            Val::Text(types::val_text(n, v))
        },
    }
}

/// What is shown of a column of a definition: its name and type, that it can be NULL,
/// whether it has automatic numbers, which makes it a key, and its default.
pub open spec fn is_shown(n: NumbersV, s: ColumnSpec, d: Option<DefaultV>, row: Seq<Val>) -> bool {
    let numbered = has_numbers(s.settings@);
    &&& row.len() == 6
    &&& row[0] == Val::Text(s.name@)
    &&& row[1] == Val::Text(type_shown(s.data_type))
    &&& row[2] == Val::Text("YES"@)
    &&& row[3] == Val::Text(
        if numbered {
            "PRI"@
        } else {
            ""@
        },
    )
    &&& row[4] == default_shown(n, d)
    &&& row[5] == Val::Text(
        if numbered && d is Some {
            "auto_increment DEFAULT"@
        } else if numbered {
            "auto_increment"@
        } else if d is Some {
            "DEFAULT"@
        } else {
            ""@
        },
    )
}

/// The names of columns.
pub open spec fn column_titles(columns: Seq<ColumnV>) -> Seq<Seq<char>> {
    Seq::new(columns.len(), |i: int| columns[i].name)
}

/// `CREATE TABLE` makes a table of a name that is free in a database, with the columns of
/// its definition in their order, their names, types, automatic numbers and defaults, and
/// `DESCRIBE` then shows these.
pub proof fn created_table_is_described(
    x: ExecV,
    db: Seq<char>,
    create: SqlStatement,
    describe: SqlStatement,
    now: u64,
    later: u64,
    table: Seq<char>,
    specs: Seq<ColumnSpec>,
)
    requires
        create matches SqlStatement::CreateTable { name, if_not_exists, specs: s } && s@ == specs
            && crate::sql::ast::path_text(name) == table,
        describe matches SqlStatement::Describe(name) && crate::sql::ast::path_text(name) == table,
        catalog::has_database(x.catalog, db),
        !catalog::has_table(x.catalog, db, table),
    ensures
        ({
            let made = executor::statement_outcome(x, db, create, now);
            let y = made.state;
            let shown = executor::statement_outcome(y, db, describe, later);
            &&& made.result == Ok::<ResultV, Seq<char>>(ResultV::Done)
            &&& catalog::table_of(y.catalog, db, table) matches Ok(t) && t.columns.len()
                == specs.len() && (forall|i: int|
                0 <= i < specs.len() ==> (#[trigger] t.columns[i]).name == specs[i].name@
                    && t.columns[i].auto_increment == has_numbers(specs[i].settings@)
                    && gives_default(
                    x.numbers,
                    last_default(specs[i].settings@),
                    t.columns[i].default_expr,
                )) && (shown.result matches Ok(ResultV::Rows { columns, list }) && column_titles(
                columns,
            ) == seq!["Field"@, "Type"@, "Null"@, "Key"@, "Default"@, "Extra"@] && list.len()
                == specs.len() && forall|i: int|
                0 <= i < specs.len() ==> is_shown(
                    x.numbers,
                    specs[i],
                    t.columns[i].default_expr,
                    (#[trigger] list[i]).values,
                ))
        }),
{
    let y = executor::statement_outcome(x, db, create, now).state;
    let columns = schema::defined_columns(x.numbers, table, specs);
    assert(catalog::table_of(y.catalog, db, table) == Ok::<catalog::TableV, Seq<char>>(
        catalog::TableV { name: table, columns },
    ));
    assert(column_titles(schema::description_columns()) =~= seq![
        "Field"@,
        "Type"@,
        "Null"@,
        "Key"@,
        "Default"@,
        "Extra"@,
    ]);
    let list = schema::description_rows(x.numbers, columns);
    assert forall|i: int| 0 <= i < specs.len() implies (#[trigger] columns[i]).name
        == specs[i].name@ && columns[i].auto_increment == has_numbers(specs[i].settings@)
        && gives_default(x.numbers, last_default(specs[i].settings@), columns[i].default_expr)
        && is_shown(x.numbers, specs[i], columns[i].default_expr, list[i].values) by {
        lemma_column_shown(x.numbers, table, specs[i]);
    }
    assert forall|i: int| 0 <= i < specs.len() implies is_shown(
        x.numbers,
        specs[i],
        columns[i].default_expr,
        (#[trigger] list[i]).values,
    ) by {
        assert(columns[i].name == specs[i].name@);
    }
}

proof fn lemma_column_shown(n: NumbersV, table: Seq<char>, s: ColumnSpec)
    ensures
        ({
            let c = schema::defined_column(n, table, s);
            &&& c.name == s.name@
            &&& c.auto_increment == has_numbers(s.settings@)
            &&& gives_default(n, last_default(s.settings@), c.default_expr)
            &&& is_shown(n, s, c.default_expr, schema::described_column(n, c))
        }),
{
    let plain = types::plain_column(s.name@, table, schema::column_type_of(s.data_type));
    lemma_settings(n, plain, s.settings@);
    lemma_char();
    reveal_strlit("");
    reveal_strlit("CURRENT_TIMESTAMP");
    assert(""@ =~= Seq::<char>::empty());
}

// ---------------------------------------------------------------------------
// Names
// ---------------------------------------------------------------------------

/// A result lists texts, one in each row under one column.
pub open spec fn lists_texts(
    x: ExecV,
    db: Seq<char>,
    statement: SqlStatement,
    now: u64,
    title: Seq<char>,
    list: Seq<Seq<char>>,
) -> bool {
    executor::statement_outcome(x, db, statement, now).result matches Ok(
        ResultV::Rows { columns, list: rows },
    ) && column_titles(columns) == seq![title] && rows.len() == list.len() && forall|i: int|
        0 <= i < rows.len() ==> (#[trigger] rows[i]).values == seq![Val::Text(list[i])]
}

/// `SHOW TABLES` lists the tables of the database, each once, under their names in lower
/// case and in the order of these.
pub proof fn show_tables_lists_tables(x: ExecV, db: Seq<char>, now: u64)
    requires
        catalog::has_database(x.catalog, db),
        names::lists(
            catalog::database(x.catalog, db).tables,
            names::listing(catalog::database(x.catalog, db).tables),
        ),
    ensures
        exists|list: Seq<Seq<char>>| #[trigger]
            lists_texts(x, db, SqlStatement::ShowTables, now, "Tables_in_"@ + db, list) && (forall|
                i: int,
                j: int,
            |
                0 <= i < j < list.len() ==> text::text_order(
                    #[trigger] list[i],
                    #[trigger] list[j],
                ) == Order::Less) && forall|t: Seq<char>| #[trigger]
                list.contains(t) <==> catalog::database(x.catalog, db).tables.contains_key(t),
{
    let tables = catalog::database(x.catalog, db).tables;
    let list = names::listing(tables);
    assert(column_titles(seq![schema::text_column("Tables_in_"@ + db)]) =~= seq![
        "Tables_in_"@ + db,
    ]);
    assert(lists_texts(x, db, SqlStatement::ShowTables, now, "Tables_in_"@ + db, list));
    assert forall|t: Seq<char>| #[trigger] list.contains(t) <==> tables.contains_key(t) by {
        assert(tables.contains_key(t) <==> list.contains(t));
    }
}

proof fn lemma_text_put(list: Seq<Seq<char>>, t: Seq<char>)
    requires
        forall|i: int, j: int|
            0 <= i < j < list.len() ==> text::text_order(#[trigger] list[i], #[trigger] list[j])
                != Order::Greater,
    ensures
        ({
            let all = schema::text_put(list, t);
            &&& all.to_multiset() == list.to_multiset().insert(t)
            &&& forall|i: int, j: int|
                0 <= i < j < all.len() ==> text::text_order(#[trigger] all[i], #[trigger] all[j])
                    != Order::Greater
        }),
    decreases list.len(),
{
    broadcast use vstd::seq_lib::group_to_multiset_ensures;

    let all = schema::text_put(list, t);
    if list.len() == 0 || text::text_order(list.last(), t) != Order::Greater {
        assert forall|i: int, j: int| 0 <= i < j < all.len() implies text::text_order(
            #[trigger] all[i],
            #[trigger] all[j],
        ) != Order::Greater by {
            if j < list.len() {
                assert(list[i] == all[i] && list[j] == all[j]);
            } else if i < list.len() - 1 {
                lemma_not_greater(list[i], list[list.len() - 1], t);
            }
        }
    } else {
        let before = list.drop_last();
        let last = list.last();
        assert forall|i: int, j: int| 0 <= i < j < before.len() implies text::text_order(
            #[trigger] before[i],
            #[trigger] before[j],
        ) != Order::Greater by {
            assert(list[i] == before[i] && list[j] == before[j]);
        }
        lemma_text_put(before, t);
        let first = schema::text_put(before, t);
        assert(before.push(last) =~= list);
        assert forall|i: int, j: int| 0 <= i < j < all.len() implies text::text_order(
            #[trigger] all[i],
            #[trigger] all[j],
        ) != Order::Greater by {
            assert(all[i] == first[i]);
            if j < first.len() {
                assert(all[j] == first[j]);
            } else {
                text::text_order_flips(last, t);
                assert(first.to_multiset().count(first[i]) > 0) by {
                    assert(first.contains(first[i]));
                }
                if first[i] != t {
                    assert(before.to_multiset().count(first[i]) > 0);
                    assert(before.contains(first[i]));
                    let k = choose|k: int| 0 <= k < before.len() && before[k] == first[i];
                    assert(list[k] == first[i] && list[list.len() - 1] == last);
                }
            }
        }
    }
}

proof fn lemma_not_greater(a: Seq<char>, b: Seq<char>, c: Seq<char>)
    requires
        text::text_order(a, b) != Order::Greater,
        text::text_order(b, c) != Order::Greater,
    ensures
        text::text_order(a, c) != Order::Greater,
{
    text::text_order_flips(a, b);
    text::text_order_flips(b, c);
    text::text_order_flips(a, c);
    if text::text_order(a, b) == Order::Less && text::text_order(b, c) == Order::Less {
        text::text_order_transitive(a, b, c);
    }
}

proof fn lemma_texts_ordered(list: Seq<Seq<char>>)
    ensures
        ({
            let all = schema::texts_ordered(list);
            &&& all.to_multiset() == list.to_multiset()
            &&& forall|i: int, j: int|
                0 <= i < j < all.len() ==> text::text_order(#[trigger] all[i], #[trigger] all[j])
                    != Order::Greater
        }),
    decreases list.len(),
{
    broadcast use vstd::seq_lib::group_to_multiset_ensures;

    if list.len() > 0 {
        lemma_texts_ordered(list.drop_last());
        lemma_text_put(schema::texts_ordered(list.drop_last()), list.last());
        assert(list.drop_last().push(list.last()) =~= list);
    }
}

/// `SHOW DATABASES` lists the databases, each once, under the names with which they were
/// created and in the order of these.
pub proof fn show_databases_lists_databases(x: ExecV, db: Seq<char>, now: u64)
    requires
        names::lists(x.catalog.databases, names::listing(x.catalog.databases)),
    ensures
        exists|list: Seq<Seq<char>>| #[trigger]
            lists_texts(x, db, SqlStatement::ShowDatabases, now, "Database"@, list) && (forall|
                i: int,
                j: int,
            |
                0 <= i < j < list.len() ==> text::text_order(
                    #[trigger] list[i],
                    #[trigger] list[j],
                ) != Order::Greater) && list.len() == names::listing(x.catalog.databases).len() && (
            forall|t: Seq<char>| #[trigger]
                x.catalog.databases.contains_key(t) ==> list.contains(
                    x.catalog.databases[t].name,
                )) && forall|i: int|
                0 <= i < list.len() ==> exists|t: Seq<char>| #[trigger]
                    x.catalog.databases.contains_key(t) && x.catalog.databases[t].name
                        == #[trigger] list[i],
{
    broadcast use vstd::seq_lib::group_to_multiset_ensures;

    let c = x.catalog;
    let all = schema::database_names(c);
    let keys = names::listing(c.databases);
    let list = schema::texts_ordered(all);
    lemma_texts_ordered(all);
    vstd::seq_lib::to_multiset_len(all);
    vstd::seq_lib::to_multiset_len(list);
    assert(column_titles(seq![schema::text_column("Database"@)]) =~= seq!["Database"@]);
    assert(lists_texts(x, db, SqlStatement::ShowDatabases, now, "Database"@, list));
    assert forall|t: Seq<char>| #[trigger] c.databases.contains_key(t) implies list.contains(
        c.databases[t].name,
    ) by {
        assert(keys.contains(t));
        let i = choose|i: int| 0 <= i < keys.len() && keys[i] == t;
        assert(all[i] == c.databases[t].name);
        assert(all.contains(all[i]));
        assert(all.to_multiset().count(all[i]) > 0);
    }
    assert forall|i: int| 0 <= i < list.len() implies exists|t: Seq<char>| #[trigger]
        c.databases.contains_key(t) && c.databases[t].name == #[trigger] list[i] by {
        assert(list.contains(list[i]));
        assert(list.to_multiset().count(list[i]) > 0);
        assert(all.contains(list[i]));
        let k = choose|k: int| 0 <= k < all.len() && all[k] == list[i];
        assert(keys.contains(keys[k]));
        assert(c.databases.contains_key(keys[k]));
    }
}

/// `USE` changes to a database that is there, and fails for one that is not.
pub proof fn use_changes_the_database(x: ExecV, db: Seq<char>, p: Path, now: u64)
    ensures
        ({
            let name = crate::sql::ast::path_text(p);
            executor::statement_outcome(x, db, SqlStatement::Use(Some(p)), now).result == (
            if catalog::has_database(x.catalog, name) {
                Ok::<ResultV, Seq<char>>(ResultV::DatabaseChanged(name))
            } else {
                Err("Unknown database: "@ + name)
            })
        }),
{
}

/// `CREATE DATABASE` makes a database without tables and leaves the others; where there is
/// one of the name already, nothing changes. `DROP DATABASE` removes the one of the name
/// and fails where there is none.
pub proof fn databases_are_made_and_removed(
    x: ExecV,
    db: Seq<char>,
    create: SqlStatement,
    remove: SqlStatement,
    now: u64,
    name: Seq<char>,
    other: Seq<char>,
)
    requires
        create matches SqlStatement::CreateDatabase { name: p, if_not_exists }
            && crate::sql::ast::path_text(p) == name,
        remove matches SqlStatement::Drop { kind: DropKind::Database, names: list, if_exists }
            && !if_exists && list@.len() > 0 && crate::sql::ast::path_text(list@[0]) == name,
        text::lowercase(other) != text::lowercase(name),
    ensures
        ({
            let made = executor::statement_outcome(x, db, create, now);
            let gone = executor::statement_outcome(x, db, remove, now);
            &&& made.result == Ok::<ResultV, Seq<char>>(ResultV::Done)
            &&& made.state.catalog.databases.contains_key(text::lowercase(name))
            &&& if x.catalog.databases.contains_key(text::lowercase(name)) {
                made.state.catalog == x.catalog
            } else {
                made.state.catalog.databases[text::lowercase(name)].name == name
                    && made.state.catalog.databases[text::lowercase(name)].tables == Map::<
                    Seq<char>,
                    catalog::TableV,
                >::empty()
            }
            &&& made.state.catalog.databases.contains_key(text::lowercase(other))
                == x.catalog.databases.contains_key(text::lowercase(other))
            &&& made.state.catalog.databases[text::lowercase(other)]
                == x.catalog.databases[text::lowercase(other)]
            &&& gone.result == (if x.catalog.databases.contains_key(text::lowercase(name)) {
                Ok::<ResultV, Seq<char>>(ResultV::Done)
            } else {
                Err("Unknown database: "@ + name)
            })
            &&& !gone.state.catalog.databases.contains_key(text::lowercase(name))
            &&& gone.state.catalog.databases.contains_key(text::lowercase(other))
                == x.catalog.databases.contains_key(text::lowercase(other))
        }),
{
}

/// A statement about a table that is not there fails and says so, and so does one in a
/// database that is not there.
pub proof fn unknown_names_are_refused(
    x: ExecV,
    db: Seq<char>,
    statement: SqlStatement,
    now: u64,
    table: Seq<char>,
)
    requires
        match statement {
            SqlStatement::Select(q) => q.body matches crate::sql::ast::QueryBody::Select {
                projection,
                from,
                selection,
            } && from@.len() > 0 && crate::sql::ast::table_text(from@[0]) == table,
            SqlStatement::Insert { table: t, columns, source } => crate::sql::ast::table_text(t)
                == table,
            SqlStatement::Update { table: t, assignments, selection } => crate::sql::ast::table_text(
                t,
            ) == table,
            SqlStatement::Delete { tables, from, selection } => tables@.len() == 0 && from@.len()
                > 0 && crate::sql::ast::table_text(from@[0]) == table,
            SqlStatement::Describe(p) => crate::sql::ast::path_text(p) == table,
            _ => false,
        },
        !catalog::has_table(x.catalog, db, table),
    ensures
        executor::statement_outcome(x, db, statement, now).result == Err::<ResultV, Seq<char>>(
            if catalog::has_database(x.catalog, db) {
                "Unknown table: "@ + table
            } else {
                "Unknown database: "@ + db
            },
        ),
        executor::statement_outcome(x, db, statement, now).state == x,
{
}

/// A column goes to a client under the number that the wire protocol has for its type.
pub proof fn columns_have_numbers_of_the_protocol(n: NumbersV, table: Seq<char>, s: ColumnSpec)
    ensures
        types::type_code(schema::defined_column(n, table, s).col_type) == match s.data_type {
            SqlType::TinyInt => 1u8,
            SqlType::Boolean => 1,
            SqlType::SmallInt => 2,
            SqlType::Int => 3,
            SqlType::Float => 4,
            SqlType::Double => 5,
            SqlType::Timestamp => 7,
            SqlType::BigInt => 8,
            SqlType::Date => 10,
            SqlType::Datetime => 12,
            SqlType::Varchar => 15,
            SqlType::Json => 245,
            SqlType::Text => 252,
            SqlType::Blob => 252,
            SqlType::Other => 253,
            SqlType::Char => 254,
        },
{
    let plain = types::plain_column(s.name@, table, schema::column_type_of(s.data_type));
    lemma_settings(n, plain, s.settings@);
}

/// Names that are the same in lower case name the same database, table and rows.
pub proof fn names_are_the_same_in_any_case(
    x: ExecV,
    db: Seq<char>,
    other_db: Seq<char>,
    table: Seq<char>,
    other_table: Seq<char>,
)
    requires
        text::lowercase(db) == text::lowercase(other_db),
        text::lowercase(table) == text::lowercase(other_table),
    ensures
        catalog::has_database(x.catalog, db) == catalog::has_database(x.catalog, other_db),
        catalog::has_table(x.catalog, db, table) == catalog::has_table(
            x.catalog,
            other_db,
            other_table,
        ),
        catalog::table_of(x.catalog, db, table) is Ok ==> catalog::table_of(x.catalog, db, table)
            == catalog::table_of(x.catalog, other_db, other_table),
        storage::rows_of(x.storage, table) == storage::rows_of(x.storage, other_table),
        catalog::indexes_of(x.catalog, db, table) == catalog::indexes_of(
            x.catalog,
            other_db,
            other_table,
        ),
        catalog::next_number(x.catalog, table) == catalog::next_number(x.catalog, other_table),
{
}

/// A table of a name that is taken cannot be created, and the statement says so. `DROP
/// TABLE` succeeds where the table is there and leaves the other tables and their rows.
pub proof fn tables_are_made_and_removed(
    x: ExecV,
    db: Seq<char>,
    create: SqlStatement,
    remove: SqlStatement,
    now: u64,
    table: Seq<char>,
    other: Seq<char>,
)
    requires
        create matches SqlStatement::CreateTable { name, if_not_exists, specs } && !if_not_exists
            && crate::sql::ast::path_text(name) == table,
        remove matches SqlStatement::Drop { kind: DropKind::Table, names: list, if_exists }
            && list@.len() > 0 && crate::sql::ast::path_text(list@[0]) == table,
        catalog::has_table(x.catalog, db, table),
        text::lowercase(text::lowercase(table)) == text::lowercase(table),
        text::lowercase(other) != text::lowercase(table),
    ensures
        ({
            let made = executor::statement_outcome(x, db, create, now);
            let gone = executor::statement_outcome(x, db, remove, now);
            &&& made.result == Err::<ResultV, Seq<char>>(
                "Table '"@ + table + "' already exists"@,
            )
            &&& made.state.catalog == x.catalog && made.state.storage == x.storage
            &&& gone.result == Ok::<ResultV, Seq<char>>(ResultV::Done)
            &&& !catalog::has_table(gone.state.catalog, db, table)
            &&& storage::rows_of(gone.state.storage, table).len() == 0
            &&& storage::next_id(gone.state.storage, table) == 1
            &&& catalog::next_number(gone.state.catalog, table) == 1
            &&& catalog::table_of(gone.state.catalog, db, other) == catalog::table_of(
                x.catalog,
                db,
                other,
            )
            &&& storage::rows_of(gone.state.storage, other) == storage::rows_of(x.storage, other)
        }),
{
}

/// What changes rows is queued to be written where there is a data directory, and so are
/// new definitions.
pub proof fn changes_are_queued_to_be_written(
    x: ExecV,
    db: Seq<char>,
    statement: SqlStatement,
    now: u64,
    table: Seq<char>,
)
    requires
        x.dir is Some,
        executor::statement_outcome(x, db, statement, now).result is Ok,
        match statement {
            SqlStatement::Insert { table: t, columns, source } => crate::sql::ast::table_text(t)
                == table,
            SqlStatement::Update { table: t, assignments, selection } => crate::sql::ast::table_text(
                t,
            ) == table,
            SqlStatement::Delete { tables, from, selection } => tables@.len() == 0 && from@.len()
                > 0 && crate::sql::ast::table_text(from@[0]) == table,
            _ => false,
        },
    ensures
        executor::statement_outcome(x, db, statement, now).state.saves == x.saves.push(
            executor::SaveV::Table(text::lowercase(table)),
        ),
{
}

/// `CREATE TABLE`, `CREATE DATABASE` and `DROP DATABASE` queue the catalog to be written,
/// and `DROP TABLE` also the removal of the file of the table.
pub proof fn definitions_are_queued_to_be_written(
    x: ExecV,
    db: Seq<char>,
    statement: SqlStatement,
    now: u64,
)
    requires
        x.dir is Some,
        executor::statement_outcome(x, db, statement, now).result is Ok,
    ensures
        ({
            let saves = executor::statement_outcome(x, db, statement, now).state.saves;
            match statement {
                SqlStatement::CreateTable { name, if_not_exists, specs } => catalog::has_table(
                    x.catalog,
                    db,
                    crate::sql::ast::path_text(name),
                ) || saves == x.saves.push(executor::SaveV::Catalog),
                SqlStatement::Drop { kind: DropKind::Table, names: list, if_exists } => (list@.len()
                    > 0 && catalog::has_table(
                    x.catalog,
                    db,
                    crate::sql::ast::path_text(list@[0]),
                )) ==> saves == x.saves.push(
                    executor::SaveV::RemoveTable(
                        text::lowercase(crate::sql::ast::path_text(list@[0])),
                    ),
                ).push(executor::SaveV::Catalog),
                _ => true,
            }
        }),
{
}

// ---------------------------------------------------------------------------
// Indexes
// ---------------------------------------------------------------------------

proof fn lemma_keys_in(
    rows: Seq<RowV>,
    kind: IndexType,
    def: IndexDefV,
    columns: Seq<ColumnV>,
    unique: bool,
    key: Seq<Val>,
)
    requires
        forall|i: int|
            0 <= i < rows.len() ==> index::can_find(
                kind,
                maintain::row_key((#[trigger] rows[i]).values, def, columns),
            ),
        maintain::index_built(rows, kind, def, unique, columns) is Ok,
    ensures
        ({
            let built = maintain::index_built(rows, kind, def, unique, columns)->Ok_0;
            &&& built.kind == kind
            &&& index::ids_at(built.map, key).len() > 0 <==> exists|i: int|
                0 <= i < rows.len() && maintain::row_key(
                    (#[trigger] rows[i]).values,
                    def,
                    columns,
                ) == key
        }),
    decreases rows.len(),
{
    if rows.len() > 0 {
        let before = rows.drop_last();
        let last = rows.len() - 1;
        assert forall|i: int| 0 <= i < before.len() implies index::can_find(
            kind,
            maintain::row_key((#[trigger] before[i]).values, def, columns),
        ) by {
            assert(before[i] == rows[i]);
        }
        lemma_keys_in(before, kind, def, columns, unique, key);
        assert(index::can_find(kind, maintain::row_key(rows[last].values, def, columns)));
        let built = maintain::index_built(rows, kind, def, unique, columns)->Ok_0;
        let first = maintain::index_built(before, kind, def, unique, columns)->Ok_0;
        if index::ids_at(first.map, key).len() > 0 {
            let i = choose|i: int|
                0 <= i < before.len() && maintain::row_key(
                    (#[trigger] before[i]).values,
                    def,
                    columns,
                ) == key;
            assert(rows[i] == before[i]);
        }
        if maintain::row_key(rows[last].values, def, columns) == key {
            assert(index::ids_at(built.map, key).len() > 0);
        }
        if exists|i: int|
            0 <= i < rows.len() && maintain::row_key((#[trigger] rows[i]).values, def, columns)
                == key {
            let i = choose|i: int|
                0 <= i < rows.len() && maintain::row_key(
                    (#[trigger] rows[i]).values,
                    def,
                    columns,
                ) == key;
            if i < last {
                assert(before[i] == rows[i]);
            }
        }
    }
}

/// An index that must be unique can be built if and only if no two rows have the same
/// values in its columns.
pub proof fn unique_index_needs_different_keys(
    rows: Seq<RowV>,
    kind: IndexType,
    def: IndexDefV,
    columns: Seq<ColumnV>,
)
    requires
        forall|i: int|
            0 <= i < rows.len() ==> index::can_find(
                kind,
                maintain::row_key((#[trigger] rows[i]).values, def, columns),
            ),
    ensures
        maintain::index_built(rows, kind, def, true, columns) is Ok <==> forall|i: int, j: int|
            0 <= i < j < rows.len() ==> maintain::row_key(
                (#[trigger] rows[i]).values,
                def,
                columns,
            ) != maintain::row_key((#[trigger] rows[j]).values, def, columns),
    decreases rows.len(),
{
    if rows.len() > 0 {
        let before = rows.drop_last();
        let last = rows.len() - 1;
        let key = maintain::row_key(rows[last].values, def, columns);
        assert forall|i: int| 0 <= i < before.len() implies index::can_find(
            kind,
            maintain::row_key((#[trigger] before[i]).values, def, columns),
        ) by {
            assert(before[i] == rows[i]);
        }
        unique_index_needs_different_keys(before, kind, def, columns);
        if maintain::index_built(before, kind, def, true, columns) is Ok {
            lemma_keys_in(before, kind, def, columns, true, key);
            let first = maintain::index_built(before, kind, def, true, columns)->Ok_0;
            if index::ids_at(first.map, key).len() > 0 {
                let i = choose|i: int|
                    0 <= i < before.len() && maintain::row_key(
                        (#[trigger] before[i]).values,
                        def,
                        columns,
                    ) == key;
                assert(rows[i] == before[i]);
            } else {
                assert forall|i: int, j: int| 0 <= i < j < rows.len() implies maintain::row_key(
                    (#[trigger] rows[i]).values,
                    def,
                    columns,
                ) != maintain::row_key((#[trigger] rows[j]).values, def, columns) by {
                    assert(before[i] == rows[i]);
                    if j < last {
                        assert(before[j] == rows[j]);
                    }
                }
            }
        } else if forall|i: int, j: int|
            0 <= i < j < rows.len() ==> maintain::row_key(
                (#[trigger] rows[i]).values,
                def,
                columns,
            ) != maintain::row_key((#[trigger] rows[j]).values, def, columns) {
            assert forall|i: int, j: int| 0 <= i < j < before.len() implies maintain::row_key(
                (#[trigger] before[i]).values,
                def,
                columns,
            ) != maintain::row_key((#[trigger] before[j]).values, def, columns) by {
                assert(rows[i] == before[i] && rows[j] == before[j]);
            }
        }
    }
}

/// `CREATE INDEX` on a table that is there, over named columns and with a name that is
/// free, succeeds unless it must be unique and two rows have the same values in its
/// columns.
pub proof fn index_is_created_where_it_can_be(
    x: ExecV,
    db: Seq<char>,
    spec: IndexSpec,
    now: u64,
    table: Seq<char>,
    columns: Seq<ColumnV>,
)
    requires
        crate::sql::ast::path_text(spec.table) == table,
        catalog::table_of(x.catalog, db, table) matches Ok(t) && t.columns == columns,
        executor::column_names(spec.columns@).len() > 0,
        catalog::index_place(
            catalog::indexes_of(x.catalog, db, table),
            executor::index_name(table, spec),
        ) is None,
        ({
            let def = executor::index_definition(table, spec);
            let rows = storage::rows_of(x.storage, table);
            forall|i: int|
                0 <= i < rows.len() ==> index::can_find(
                    def.index_type,
                    maintain::row_key((#[trigger] rows[i]).values, def, columns),
                )
        }),
    ensures
        ({
            let def = executor::index_definition(table, spec);
            let rows = storage::rows_of(x.storage, table);
            let out = executor::statement_outcome(x, db, SqlStatement::CreateIndex(spec), now);
            &&& out.result == Ok::<ResultV, Seq<char>>(ResultV::Done) <==> !spec.unique || forall|
                i: int,
                j: int,
            |
                0 <= i < j < rows.len() ==> maintain::row_key(
                    (#[trigger] rows[i]).values,
                    def,
                    columns,
                ) != maintain::row_key((#[trigger] rows[j]).values, def, columns)
            &&& out.result is Ok ==> catalog::indexes_of(out.state.catalog, db, table)
                == catalog::indexes_of(x.catalog, db, table).push(def)
            &&& storage::rows_of(out.state.storage, table) == rows
        }),
{
    let def = executor::index_definition(table, spec);
    let rows = storage::rows_of(x.storage, table);
    maintain::index_can_be_built(rows, def.index_type, def, columns);
    unique_index_needs_different_keys(rows, def.index_type, def, columns);
}

/// The message on a key that occurs twice shows its values, with commas between them, and
/// the name of the index. The key is one that two rows have.
pub proof fn message_shows_the_key_that_occurs_twice(
    rows: Seq<RowV>,
    def: IndexDefV,
    columns: Seq<ColumnV>,
    n: NumbersV,
    a: Val,
    b: Val,
)
    requires
        forall|i: int|
            0 <= i < rows.len() ==> index::can_find(
                def.index_type,
                maintain::row_key((#[trigger] rows[i]).values, def, columns),
            ),
    ensures
        maintain::index_built(rows, def.index_type, def, true, columns) matches Err(key)
            ==> exists|i: int, j: int|
            0 <= i < j < rows.len() && maintain::row_key((#[trigger] rows[i]).values, def, columns)
                == key && maintain::row_key((#[trigger] rows[j]).values, def, columns) == key,
        executor::duplicate_entry(n, seq![a], def.name) == "Duplicate entry '"@ + types::val_text(
            n,
            a,
        ) + "' for key '"@ + def.name + "'"@,
        executor::duplicate_entry(n, seq![a, b], def.name) == "Duplicate entry '"@
            + types::val_text(n, a) + ","@ + types::val_text(n, b) + "' for key '"@ + def.name
            + "'"@,
    decreases rows.len(),
{
    let one = executor::key_texts(n, seq![a]);
    let two = executor::key_texts(n, seq![a, b]);
    lemma_joined(types::val_text(n, a), types::val_text(n, b), ","@);
    assert(one =~= seq![types::val_text(n, a)]);
    assert(two =~= seq![types::val_text(n, a), types::val_text(n, b)]);
    assert(executor::duplicate_entry(n, seq![a, b], def.name) =~= "Duplicate entry '"@
        + types::val_text(n, a) + ","@ + types::val_text(n, b) + "' for key '"@ + def.name + "'"@);
    if rows.len() > 0 {
        let before = rows.drop_last();
        let last = rows.len() - 1;
        assert forall|i: int| 0 <= i < before.len() implies index::can_find(
            def.index_type,
            maintain::row_key((#[trigger] before[i]).values, def, columns),
        ) by {
            assert(before[i] == rows[i]);
        }
        message_shows_the_key_that_occurs_twice(before, def, columns, n, a, b);
        match maintain::index_built(before, def.index_type, def, true, columns) {
            Err(key) => {
                let (i, j) = choose|i: int, j: int|
                    0 <= i < j < before.len() && maintain::row_key(
                        (#[trigger] before[i]).values,
                        def,
                        columns,
                    ) == key && maintain::row_key((#[trigger] before[j]).values, def, columns)
                        == key;
                assert(rows[i] == before[i] && rows[j] == before[j]);
            },
            Ok(first) => {
                let key = maintain::row_key(rows[last].values, def, columns);
                lemma_keys_in(before, def.index_type, def, columns, true, key);
                if index::ids_at(first.map, key).len() > 0 {
                    let i = choose|i: int|
                        0 <= i < before.len() && maintain::row_key(
                            (#[trigger] before[i]).values,
                            def,
                            columns,
                        ) == key;
                    assert(rows[i] == before[i] && i < last);
                }
            },
        }
    }
}

proof fn lemma_joined(a: Seq<char>, b: Seq<char>, mark: Seq<char>)
    ensures
        text::joined(seq![a], mark) == a,
        text::joined(seq![a, b], mark) == a + mark + b,
{
    reveal_with_fuel(text::joined, 3);
    assert(seq![a].drop_last() =~= Seq::<Seq<char>>::empty());
    assert(seq![a, b].drop_last() =~= seq![a]);
}

/// An index has the name, the kind and the columns that the statement gives it. One
/// without a name is named after its table and columns; one without a kind is ordered.
pub proof fn index_is_defined_as_written(
    table: Seq<char>,
    spec: IndexSpec,
    first: Seq<char>,
    second: Seq<char>,
)
    ensures
        ({
            let def = executor::index_definition(table, spec);
            &&& def.table_name == table
            &&& def.unique == spec.unique
            &&& spec.name matches Some(name) ==> def.name == crate::sql::ast::path_text(name)
            &&& spec.name is None && def.columns == seq![first] ==> def.name == "idx_"@ + table
                + "_"@ + first
            &&& spec.name is None && def.columns == seq![first, second] ==> def.name == "idx_"@
                + table + "_"@ + first + "_"@ + second
            &&& def.index_type is Hash <==> (spec.using matches Some(s) && text::same_name(
                s@,
                seq!['h', 'a', 's', 'h'],
            ))
            &&& (forall|i: int|
                0 <= i < spec.columns@.len() ==> (#[trigger] spec.columns@[i]).node is Identifier)
                ==> def.columns.len() == spec.columns@.len() && forall|i: int|
                0 <= i < spec.columns@.len() ==> (#[trigger] spec.columns@[i].node matches
                    Node::Identifier(name) && def.columns[i] == name@)
        }),
{
    reveal_strlit("hash");
    assert("hash"@ =~= seq!['h', 'a', 's', 'h']);
    let def = executor::index_definition(table, spec);
    lemma_joined(first, second, "_"@);
    assert("idx_"@ + table + "_"@ + (first + "_"@ + second) =~= "idx_"@ + table + "_"@ + first
        + "_"@ + second);
    lemma_names_of_columns(spec.columns@);
}

proof fn lemma_names_of_columns(exprs: Seq<Expression>)
    ensures
        (forall|i: int| 0 <= i < exprs.len() ==> (#[trigger] exprs[i]).node is Identifier)
            ==> executor::column_names(exprs).len() == exprs.len() && forall|i: int|
            0 <= i < exprs.len() ==> (#[trigger] exprs[i].node matches Node::Identifier(name)
                && executor::column_names(exprs)[i] == name@),
    decreases exprs.len(),
{
    if exprs.len() > 0 && forall|i: int|
        0 <= i < exprs.len() ==> (#[trigger] exprs[i]).node is Identifier {
        let before = exprs.drop_last();
        assert forall|i: int| 0 <= i < before.len() implies (#[trigger] before[i]).node
            is Identifier by {
            assert(before[i] == exprs[i]);
        }
        lemma_names_of_columns(before);
        assert(exprs[exprs.len() - 1].node is Identifier);
        assert forall|i: int| 0 <= i < exprs.len() implies (#[trigger] exprs[i].node matches
            Node::Identifier(name) && executor::column_names(exprs)[i] == name@) by {
            if i < before.len() {
                assert(before[i] == exprs[i]);
                assert(before[i].node is Identifier);
            }
        }
    }
}

/// A new column is of the character set 45, has no flags and no decimals, belongs to its
/// table, and has a length that goes by its type.
pub proof fn columns_have_properties_of_their_type(n: NumbersV, table: Seq<char>, s: ColumnSpec)
    ensures
        ({
            let c = schema::defined_column(n, table, s);
            &&& c.name == s.name@ && c.table == table
            &&& c.charset == 45 && c.flags == 0 && c.decimals == 0
            &&& c.column_length == match s.data_type {
                SqlType::Int => 11,
                SqlType::BigInt => 20,
                SqlType::SmallInt => 6,
                SqlType::TinyInt | SqlType::Boolean => 4,
                SqlType::Float => 12,
                SqlType::Double => 22,
                SqlType::Text | SqlType::Blob | SqlType::Other => 65535,
                SqlType::Date => 10,
                SqlType::Timestamp => 19,
                _ => 255int,
            }
        }),
{
    lemma_kept_settings(
        n,
        types::plain_column(s.name@, table, schema::column_type_of(s.data_type)),
        s.settings@,
    );
}

proof fn lemma_kept_settings(n: NumbersV, c: ColumnV, settings: Seq<ColumnSetting>)
    ensures
        ({
            let d = schema::settings_applied(n, c, settings);
            &&& d.name == c.name && d.table == c.table && d.col_type == c.col_type
            &&& d.charset == c.charset && d.flags == c.flags && d.decimals == c.decimals
            &&& d.column_length == c.column_length
        }),
    decreases settings.len(),
{
    if settings.len() > 0 {
        lemma_kept_settings(n, c, settings.drop_last());
    }
}

/// Each name of a type means one type, and what is no such name a text of varying length.
pub proof fn names_of_types_are_known(s: Seq<char>)
    ensures
        types::type_named(s) is Long <==> s == "INT"@ || s == "INTEGER"@ || s == "INT4"@,
        types::type_named(s) is LongLong <==> s == "BIGINT"@ || s == "INT8"@,
        types::type_named(s) is Short <==> s == "SMALLINT"@ || s == "INT2"@,
        types::type_named(s) is Tiny <==> s == "TINYINT"@ || s == "BOOLEAN"@ || s == "BOOL"@,
        types::type_named(s) is Float <==> s == "FLOAT"@,
        types::type_named(s) is Double <==> s == "DOUBLE"@ || s == "REAL"@,
        types::type_named(s) is NewDecimal <==> s == "DECIMAL"@ || s == "NUMERIC"@,
        types::type_named(s) is String <==> s == "CHAR"@,
        types::type_named(s) is Blob <==> s == "TEXT"@ || s == "CLOB"@ || s == "BLOB"@,
        types::type_named(s) is Date <==> s == "DATE"@,
        types::type_named(s) is Timestamp <==> s == "TIMESTAMP"@,
        types::type_named(s) is Json <==> s == "JSON"@,
{
    lemma_type_names_differ();
}

proof fn lemma_type_names_differ()
    ensures
        "INT"@.len() == 3,
        "INTEGER"@.len() == 7 && "INTEGER"@[0] == 'I',
        "INT4"@.len() == 4 && "INT4"@[3] == '4',
        "BIGINT"@.len() == 6 && "BIGINT"@[0] == 'B',
        "INT8"@.len() == 4 && "INT8"@[3] == '8',
        "SMALLINT"@.len() == 8,
        "INT2"@.len() == 4 && "INT2"@[3] == '2',
        "TINYINT"@.len() == 7 && "TINYINT"@[0] == 'T',
        "BOOLEAN"@.len() == 7 && "BOOLEAN"@[0] == 'B',
        "BOOL"@.len() == 4 && "BOOL"@[3] == 'L',
        "FLOAT"@.len() == 5,
        "DOUBLE"@.len() == 6 && "DOUBLE"@[0] == 'D',
        "REAL"@.len() == 4 && "REAL"@[3] == 'L' && "REAL"@[0] == 'R',
        "BOOL"@[0] == 'B',
        "DECIMAL"@.len() == 7 && "DECIMAL"@[0] == 'D',
        "NUMERIC"@.len() == 7 && "NUMERIC"@[0] == 'N',
        "CHAR"@.len() == 4 && "CHAR"@[3] == 'R',
        "TEXT"@.len() == 4 && "TEXT"@[3] == 'T',
        "CLOB"@.len() == 4 && "CLOB"@[3] == 'B' && "CLOB"@[0] == 'C',
        "BLOB"@.len() == 4 && "BLOB"@[3] == 'B' && "BLOB"@[0] == 'B',
        "DATE"@.len() == 4 && "DATE"@[3] == 'E',
        "TIMESTAMP"@.len() == 9,
        "JSON"@.len() == 4 && "JSON"@[3] == 'N',
{
    reveal_strlit("INT");
    reveal_strlit("INTEGER");
    reveal_strlit("INT4");
    reveal_strlit("BIGINT");
    reveal_strlit("INT8");
    reveal_strlit("SMALLINT");
    reveal_strlit("INT2");
    reveal_strlit("TINYINT");
    reveal_strlit("BOOLEAN");
    reveal_strlit("BOOL");
    reveal_strlit("FLOAT");
    reveal_strlit("DOUBLE");
    reveal_strlit("REAL");
    reveal_strlit("DECIMAL");
    reveal_strlit("NUMERIC");
    reveal_strlit("CHAR");
    reveal_strlit("TEXT");
    reveal_strlit("CLOB");
    reveal_strlit("BLOB");
    reveal_strlit("DATE");
    reveal_strlit("TIMESTAMP");
    reveal_strlit("JSON");
}

} // verus!
