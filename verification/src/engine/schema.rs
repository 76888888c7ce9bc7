//! The definition of tables, and what is shown of it.

use vstd::prelude::*;

use crate::engine::catalog;
use crate::engine::catalog::{Catalog, CatalogV};
use crate::engine::eval;
use crate::engine::eval::eval_given;
use crate::engine::storage::{Row, RowV};
use crate::engine::types;
use crate::engine::types::{
    Column, ColumnType, ColumnV, DefaultExpr, DefaultV, Numbers, NumbersV, Val, Value,
};
use crate::model;
use crate::names;
use crate::order::Order;
use crate::sql::ast::{ColumnSetting, ColumnSpec, Expression, Node, OptionToken, SqlType};
use crate::text;
use crate::text::{equal_ignoring_case, order_texts, same_text};

verus! {

broadcast use crate::model::group_views;

// ---------------------------------------------------------------------------
// Columns of a definition
// ---------------------------------------------------------------------------

/// The type of a column for a type in a definition.
pub open spec fn column_type_of(t: SqlType) -> ColumnType {
    match t {
        SqlType::Int => ColumnType::Long,
        SqlType::BigInt => ColumnType::LongLong,
        SqlType::SmallInt => ColumnType::Short,
        SqlType::TinyInt => ColumnType::Tiny,
        SqlType::Float => ColumnType::Float,
        SqlType::Double => ColumnType::Double,
        SqlType::Text => ColumnType::Blob,
        SqlType::Varchar => ColumnType::VarChar,
        SqlType::Char => ColumnType::String,
        SqlType::Boolean => ColumnType::Tiny,
        SqlType::Blob => ColumnType::Blob,
        SqlType::Date => ColumnType::Date,
        SqlType::Datetime => ColumnType::DateTime,
        SqlType::Timestamp => ColumnType::Timestamp,
        SqlType::Json => ColumnType::Json,
        SqlType::Other => ColumnType::VarString,
    }
}

/// The default that an expression gives, if it gives one: a literal, or the time
/// of the insertion.
pub open spec fn default_of(n: NumbersV, e: Expression) -> Option<DefaultV> {
    match e.node {
        Node::Function(name) => if text::same_name(name@, "now"@) || text::same_name(
            name@,
            "current_timestamp"@,
        ) {
            Some(DefaultV::CurrentTimestamp)
        } else {
            None
        },
        _ => match eval::given_value(n, e) {
            Ok(v) => Some(DefaultV::Value(v)),
            Err(_) => None,
        },
    }
}

/// The token is the keyword for automatic numbers.
pub open spec fn is_auto_increment(t: OptionToken) -> bool {
    match t {
        OptionToken::Word { value, quoted } => !quoted && text::uppercase(value@)
            == "AUTO_INCREMENT"@,
        OptionToken::Other => false,
    }
}

pub open spec fn setting_applied(n: NumbersV, c: ColumnV, s: ColumnSetting) -> ColumnV {
    match s {
        ColumnSetting::Dialect(tokens) => if exists|i: int|
            0 <= i < tokens@.len() && is_auto_increment(#[trigger] tokens@[i]) {
            ColumnV { auto_increment: true, ..c }
        } else {
            c
        },
        ColumnSetting::Default(e) => ColumnV { default_expr: default_of(n, e), ..c },
        ColumnSetting::Other => c,
    }
}

/// A column with its settings, in their order.
pub open spec fn settings_applied(n: NumbersV, c: ColumnV, settings: Seq<ColumnSetting>) -> ColumnV
    decreases settings.len(),
{
    if settings.len() == 0 {
        c
    } else {
        setting_applied(n, settings_applied(n, c, settings.drop_last()), settings.last())
    }
}

/// The column that a definition gives.
pub open spec fn defined_column(n: NumbersV, table: Seq<char>, s: ColumnSpec) -> ColumnV {
    settings_applied(
        n,
        types::plain_column(s.name@, table, column_type_of(s.data_type)),
        s.settings@,
    )
}

pub open spec fn defined_columns(n: NumbersV, table: Seq<char>, specs: Seq<ColumnSpec>) -> Seq<
    ColumnV,
> {
    Seq::new(specs.len(), |i: int| defined_column(n, table, specs[i]))
}

pub fn sql_type_to_column_type(t: SqlType) -> (r: ColumnType)
    ensures
        r == column_type_of(t),
{
    match t {
        SqlType::Int => ColumnType::Long,
        SqlType::BigInt => ColumnType::LongLong,
        SqlType::SmallInt => ColumnType::Short,
        SqlType::TinyInt => ColumnType::Tiny,
        SqlType::Float => ColumnType::Float,
        SqlType::Double => ColumnType::Double,
        SqlType::Text => ColumnType::Blob,
        SqlType::Varchar => ColumnType::VarChar,
        SqlType::Char => ColumnType::String,
        SqlType::Boolean => ColumnType::Tiny,
        SqlType::Blob => ColumnType::Blob,
        SqlType::Date => ColumnType::Date,
        SqlType::Datetime => ColumnType::DateTime,
        SqlType::Timestamp => ColumnType::Timestamp,
        SqlType::Json => ColumnType::Json,
        SqlType::Other => ColumnType::VarString,
    }
}

/// The default that an expression gives, if it gives one.
pub fn parse_default_expr(expr: &Expression, numbers: &Numbers) -> (r: Option<DefaultExpr>)
    ensures
        model::view_opt(r) == default_of(numbers@, *expr),
{
    match &expr.node {
        Node::Function(name) => {
            if equal_ignoring_case(name.as_str(), "now") || equal_ignoring_case(
                name.as_str(),
                "current_timestamp",
            ) {
                Some(DefaultExpr::CurrentTimestamp)
            } else {
                None
            }
        },
        _ => match eval_given(expr, numbers) {
            Ok(v) => Some(DefaultExpr::Value(v)),
            Err(_) => None,
        },
    }
}

fn has_auto_increment(tokens: &Vec<OptionToken>) -> (r: bool)
    ensures
        r == exists|i: int| 0 <= i < tokens@.len() && is_auto_increment(#[trigger] tokens@[i]),
{
    let mut i: usize = 0;
    while i < tokens.len()
        invariant
            i <= tokens.len(),
            forall|j: int| 0 <= j < i ==> !is_auto_increment(#[trigger] tokens@[j]),
        decreases tokens.len() - i,
    {
        let found: bool = match &tokens[i] {
            OptionToken::Word { value, quoted } => !*quoted && same_text(
                value.to_uppercase().as_str(),
                "AUTO_INCREMENT",
            ),
            OptionToken::Other => false,
        };
        if found {
            assert(is_auto_increment(tokens@[i as int]));
            return true;
        }
        i = i + 1;
    }
    false
}

fn define_column(spec: &ColumnSpec, table_name: &str, numbers: &Numbers) -> (r: Column)
    ensures
        r@ == defined_column(numbers@, table_name@, *spec),
{
    let mut c = Column::new(
        spec.name.as_str(),
        table_name,
        sql_type_to_column_type(spec.data_type),
    );
    let ghost plain = c@;
    let settings = &spec.settings;
    let mut i: usize = 0;
    while i < settings.len()
        invariant
            i <= settings.len(),
            c@ == settings_applied(numbers@, plain, settings@.take(i as int)),
        decreases settings.len() - i,
    {
        let ghost next = settings@.take(i + 1);
        proof {
            assert(next.drop_last() =~= settings@.take(i as int));
            assert(next.last() == settings@[i as int]);
        }
        match &settings[i] {
            ColumnSetting::Dialect(tokens) => {
                if has_auto_increment(tokens) {
                    c.auto_increment = true;
                }
            },
            ColumnSetting::Default(expr) => {
                c.default_expr = parse_default_expr(expr, numbers);
            },
            ColumnSetting::Other => {},
        }
        i = i + 1;
    }
    assert(settings@.take(settings@.len() as int) =~= settings@);
    c
}

/// The columns that a definition gives.
pub fn define_columns(specs: &Vec<ColumnSpec>, table_name: &str, numbers: &Numbers) -> (r: Vec<
    Column,
>)
    ensures
        model::views(r@) == defined_columns(numbers@, table_name@, specs@),
{
    let ghost want = defined_columns(numbers@, table_name@, specs@);
    let mut out: Vec<Column> = Vec::new();
    let mut i: usize = 0;
    while i < specs.len()
        invariant
            want == defined_columns(numbers@, table_name@, specs@),
            i <= specs.len(),
            model::views(out@) == want.take(i as int),
        decreases specs.len() - i,
    {
        out.push(define_column(&specs[i], table_name, numbers));
        i = i + 1;
        assert(model::views(out@) =~= want.take(i as int));
    }
    assert(want.take(want.len() as int) =~= want);
    out
}

// ---------------------------------------------------------------------------
// DESCRIBE
// ---------------------------------------------------------------------------

pub open spec fn base_type_name(t: ColumnType) -> Seq<char> {
    match t {
        ColumnType::Decimal => "decimal"@,
        ColumnType::Tiny => "tinyint"@,
        ColumnType::Short => "smallint"@,
        ColumnType::Long => "int"@,
        ColumnType::Float => "float"@,
        ColumnType::Double => "double"@,
        ColumnType::Null => "null"@,
        ColumnType::Timestamp => "timestamp"@,
        ColumnType::LongLong => "bigint"@,
        ColumnType::Int24 => "mediumint"@,
        ColumnType::Date => "date"@,
        ColumnType::Time => "time"@,
        ColumnType::DateTime => "datetime"@,
        ColumnType::Year => "year"@,
        ColumnType::VarChar => "varchar"@,
        ColumnType::Bit => "bit"@,
        ColumnType::Json => "json"@,
        ColumnType::NewDecimal => "decimal"@,
        ColumnType::Enum => "enum"@,
        ColumnType::SetOf => "set"@,
        ColumnType::TinyBlob => "tinyblob"@,
        ColumnType::MediumBlob => "mediumblob"@,
        ColumnType::LongBlob => "longblob"@,
        ColumnType::Blob => "text"@,
        ColumnType::VarString => "varchar"@,
        ColumnType::String => "char"@,
        ColumnType::Geometry => "geometry"@,
    }
}

/// The name of a column type as it is shown: that of a `CHAR` with its length.
pub open spec fn shown_type(t: ColumnType, len: u32) -> Seq<char> {
    if t == ColumnType::String {
        base_type_name(t) + "("@ + text::nat_text(len as nat) + ")"@
    } else {
        base_type_name(t)
    }
}

fn base_name(t: ColumnType) -> (r: &'static str)
    ensures
        r@ == base_type_name(t),
{
    match t {
        ColumnType::Decimal => "decimal",
        ColumnType::Tiny => "tinyint",
        ColumnType::Short => "smallint",
        ColumnType::Long => "int",
        ColumnType::Float => "float",
        ColumnType::Double => "double",
        ColumnType::Null => "null",
        ColumnType::Timestamp => "timestamp",
        ColumnType::LongLong => "bigint",
        ColumnType::Int24 => "mediumint",
        ColumnType::Date => "date",
        ColumnType::Time => "time",
        ColumnType::DateTime => "datetime",
        ColumnType::Year => "year",
        ColumnType::VarChar => "varchar",
        ColumnType::Bit => "bit",
        ColumnType::Json => "json",
        ColumnType::NewDecimal => "decimal",
        ColumnType::Enum => "enum",
        ColumnType::SetOf => "set",
        ColumnType::TinyBlob => "tinyblob",
        ColumnType::MediumBlob => "mediumblob",
        ColumnType::LongBlob => "longblob",
        ColumnType::Blob => "text",
        ColumnType::VarString => "varchar",
        ColumnType::String => "char",
        ColumnType::Geometry => "geometry",
    }
}

/// The name of a column type as it is shown: that of a `CHAR` with its length.
pub fn column_type_name(t: ColumnType, len: u32) -> (r: String)
    ensures
        r@ == shown_type(t, len),
{
    let mut out = base_name(t).to_string();
    if t == ColumnType::String {
        out.append("(");
        text::push_u64(&mut out, len as u64);
        out.append(")");
    }
    out
}

/// The text of a default; empty where there is none.
pub open spec fn default_text(n: NumbersV, d: Option<DefaultV>) -> Seq<char> {
    match d {
        Some(DefaultV::Value(v)) => types::val_text(n, v),
        Some(DefaultV::CurrentTimestamp) => "CURRENT_TIMESTAMP"@,
        None => Seq::empty(),
    }
}

/// The words on what is special about a column, with a space between them.
pub open spec fn extra_text(c: ColumnV) -> Seq<char> {
    if c.auto_increment && c.default_expr is Some {
        "auto_increment DEFAULT"@
    } else if c.auto_increment {
        "auto_increment"@
    } else if c.default_expr is Some {
        "DEFAULT"@
    } else {
        Seq::empty()
    }
}

/// What is shown of a column: its name, its type, that it can be NULL, whether it
/// is a key, its default, and what is special about it.
pub open spec fn described_column(n: NumbersV, c: ColumnV) -> Seq<Val> {
    seq![
        Val::Text(c.name),
        Val::Text(shown_type(c.col_type, c.column_length)),
        Val::Text("YES"@),
        Val::Text(
            if c.auto_increment {
                "PRI"@
            } else {
                Seq::empty()
            },
        ),
        if default_text(n, c.default_expr).len() == 0 {
            Val::Null
        } else {
            Val::Text(default_text(n, c.default_expr))
        },
        Val::Text(extra_text(c)),
    ]
}

/// A column of a result that holds texts and belongs to no table.
pub open spec fn text_column(name: Seq<char>) -> ColumnV {
    types::plain_column(name, Seq::empty(), ColumnType::VarChar)
}

/// The columns under which a table is described.
pub open spec fn description_columns() -> Seq<ColumnV> {
    seq![
        text_column("Field"@),
        text_column("Type"@),
        text_column("Null"@),
        text_column("Key"@),
        text_column("Default"@),
        text_column("Extra"@),
    ]
}

pub open spec fn description_rows(n: NumbersV, columns: Seq<ColumnV>) -> Seq<RowV> {
    Seq::new(
        columns.len(),
        |i: int| RowV { id: 0, values: described_column(n, columns[i]) },
    )
}

fn show_column(c: &Column, numbers: &Numbers) -> (r: Vec<Value>)
    ensures
        model::views(r@) == described_column(numbers@, c@),
{
    let mut out: Vec<Value> = Vec::new();
    out.push(Value::Text(c.name.clone()));
    out.push(Value::Text(column_type_name(c.col_type, c.column_length)));
    out.push(Value::Text("YES".to_string()));
    let key = if c.auto_increment {
        "PRI".to_string()
    } else {
        String::new()
    };
    out.push(Value::Text(key));
    let default = match &c.default_expr {
        Some(DefaultExpr::Value(v)) => v.to_string(numbers),
        Some(DefaultExpr::CurrentTimestamp) => "CURRENT_TIMESTAMP".to_string(),
        None => String::new(),
    };
    proof {
        reveal_strlit("");
        assert(default@.len() == 0 ==> default@ =~= ""@);
    }
    if same_text(default.as_str(), "") {
        out.push(Value::Null);
    } else {
        out.push(Value::Text(default));
    }
    let has_default: bool = match &c.default_expr {
        Some(_) => true,
        None => false,
    };
    let extra = if c.auto_increment && has_default {
        "auto_increment DEFAULT".to_string()
    } else if c.auto_increment {
        "auto_increment".to_string()
    } else if has_default {
        "DEFAULT".to_string()
    } else {
        String::new()
    };
    out.push(Value::Text(extra));
    assert(model::views(out@) =~= described_column(numbers@, c@));
    out
}

pub fn describe_columns() -> (r: Vec<Column>)
    ensures
        model::views(r@) == description_columns(),
{
    let mut out: Vec<Column> = Vec::new();
    out.push(Column::new("Field", "", ColumnType::VarChar));
    out.push(Column::new("Type", "", ColumnType::VarChar));
    out.push(Column::new("Null", "", ColumnType::VarChar));
    out.push(Column::new("Key", "", ColumnType::VarChar));
    out.push(Column::new("Default", "", ColumnType::VarChar));
    out.push(Column::new("Extra", "", ColumnType::VarChar));
    proof {
        reveal_strlit("");
        assert(""@ =~= Seq::<char>::empty());
    }
    assert(model::views(out@) =~= description_columns());
    out
}

pub fn describe_rows(columns: &Vec<Column>, numbers: &Numbers) -> (r: Vec<Row>)
    ensures
        model::views(r@) == description_rows(numbers@, model::views(columns@)),
{
    let ghost want = description_rows(numbers@, model::views(columns@));
    let mut out: Vec<Row> = Vec::new();
    let mut i: usize = 0;
    while i < columns.len()
        invariant
            want == description_rows(numbers@, model::views(columns@)),
            i <= columns.len(),
            model::views(out@) == want.take(i as int),
        decreases columns.len() - i,
    {
        out.push(Row { id: 0, values: show_column(&columns[i], numbers) });
        i = i + 1;
        assert(model::views(out@) =~= want.take(i as int));
    }
    assert(want.take(want.len() as int) =~= want);
    out
}

// ---------------------------------------------------------------------------
// SHOW
// ---------------------------------------------------------------------------

/// Rows of one text each.
pub open spec fn text_rows(texts: Seq<Seq<char>>) -> Seq<RowV> {
    Seq::new(texts.len(), |i: int| RowV { id: 0, values: seq![Val::Text(texts[i])] })
}

/// A text put into a list behind all that are not greater.
pub open spec fn text_put(list: Seq<Seq<char>>, t: Seq<char>) -> Seq<Seq<char>>
    decreases list.len(),
{
    if list.len() == 0 || text::text_order(list.last(), t) != Order::Greater {
        list.push(t)
    } else {
        text_put(list.drop_last(), t).push(list.last())
    }
}

/// The texts of a list in ascending order.
pub open spec fn texts_ordered(list: Seq<Seq<char>>) -> Seq<Seq<char>>
    decreases list.len(),
{
    if list.len() == 0 {
        list
    } else {
        text_put(texts_ordered(list.drop_last()), list.last())
    }
}

/// The names of the databases, as they were created.
pub open spec fn database_names(c: CatalogV) -> Seq<Seq<char>> {
    let keys = names::listing(c.databases);
    Seq::new(keys.len(), |i: int| c.databases[keys[i]].name)
}

/// Rows of one text each.
pub fn rows_of_texts(texts: &Vec<String>) -> (r: Vec<Row>)
    ensures
        model::views(r@) == text_rows(model::views(texts@)),
{
    let ghost want = text_rows(model::views(texts@));
    let mut out: Vec<Row> = Vec::new();
    let mut i: usize = 0;
    while i < texts.len()
        invariant
            want == text_rows(model::views(texts@)),
            i <= texts.len(),
            model::views(out@) == want.take(i as int),
        decreases texts.len() - i,
    {
        let mut values: Vec<Value> = Vec::new();
        values.push(Value::Text(texts[i].clone()));
        assert(model::views(values@) =~= seq![Val::Text(texts@[i as int]@)]);
        out.push(Row { id: 0, values });
        i = i + 1;
        assert(model::views(out@) =~= want.take(i as int));
    }
    assert(want.take(want.len() as int) =~= want);
    out
}

proof fn lemma_text_put(list: Seq<Seq<char>>, t: Seq<char>, i: int)
    requires
        0 <= i <= list.len(),
        i > 0 ==> text::text_order(list[i - 1], t) != Order::Greater,
        forall|j: int|
            i <= j < list.len() ==> text::text_order(#[trigger] list[j], t) == Order::Greater,
    ensures
        text_put(list, t) == list.insert(i, t),
    decreases list.len(),
{
    if i == list.len() {
        assert(list.insert(i, t) =~= list.push(t));
    } else {
        let before = list.drop_last();
        assert(text::text_order(list[list.len() - 1], t) == Order::Greater);
        assert forall|j: int| i <= j < before.len() implies text::text_order(
            #[trigger] before[j],
            t,
        ) == Order::Greater by {
            assert(before[j] == list[j]);
        }
        lemma_text_put(before, t, i);
        assert(before.insert(i, t).push(list.last()) =~= list.insert(i, t));
    }
}

fn put_text(list: &mut Vec<String>, t: String)
    ensures
        model::views(final(list)@) == text_put(model::views(old(list)@), t@),
{
    let ghost v = model::views(list@);
    let mut i: usize = list.len();
    while i > 0
        invariant
            i <= list.len(),
            v == model::views(list@),
            v == model::views(old(list)@),
            forall|j: int|
                i <= j < v.len() ==> text::text_order(#[trigger] v[j], t@) == Order::Greater,
        decreases i,
    {
        assert(v[i - 1] == list@[i - 1]@);
        match order_texts(list[i - 1].as_str(), t.as_str()) {
            Order::Greater => {
                i = i - 1;
            },
            _ => {
                proof {
                    lemma_text_put(v, t@, i as int);
                }
                list.insert(i, t);
                return;
            },
        }
    }
    proof {
        lemma_text_put(v, t@, 0);
    }
    list.insert(0, t);
}

/// The names of the databases, in ascending order.
pub fn list_databases(definitions: &Catalog) -> (r: Vec<String>)
    ensures
        model::views(r@) == texts_ordered(database_names(definitions@)),
{
    let databases = &definitions.databases;
    let count: usize = databases.len();
    let ghost list = database_names(definitions@);
    let mut out: Vec<String> = Vec::new();
    let mut i: usize = 0;
    while i < count
        invariant
            databases@ == definitions@.databases,
            list == database_names(definitions@),
            count == list.len(),
            i <= count,
            model::views(out@) == texts_ordered(list.take(i as int)),
        decreases count - i,
    {
        let ghost next = list.take(i + 1);
        proof {
            assert(next.drop_last() =~= list.take(i as int));
            assert(next.last() == list[i as int]);
        }
        let d = databases.value_at(i);
        put_text(&mut out, d.name.clone());
        i = i + 1;
    }
    assert(list.take(list.len() as int) =~= list);
    out
}

/// The names of the tables of a database, in ascending order, or why there are
/// none.
pub fn list_tables(definitions: &Catalog, db: &str) -> (r: Result<Vec<String>, String>)
    ensures
        match r {
            Ok(list) => catalog::has_database(definitions@, db@) && model::views(list@)
                == names::listing(catalog::database(definitions@, db@).tables),
            Err(e) => !catalog::has_database(definitions@, db@) && e@
                == catalog::unknown_database(db@),
        },
{
    let d = match definitions.get_database(db) {
        Some(d) => d,
        None => {
            let mut message = "Unknown database: ".to_string();
            message.append(db);
            return Err(message);
        },
    };
    let tables = &d.tables;
    let count: usize = tables.len();
    let ghost list = names::listing(tables@);
    let mut out: Vec<String> = Vec::new();
    let mut i: usize = 0;
    while i < count
        invariant
            list == names::listing(tables@),
            count == list.len(),
            i <= count,
            model::views(out@) == list.take(i as int),
        decreases count - i,
    {
        out.push(tables.name_at(i).clone());
        i = i + 1;
        assert(model::views(out@) =~= list.take(i as int));
    }
    assert(list.take(list.len() as int) =~= list);
    Ok(out)
}

} // verus!
