//! Statements as the `sqlparser` crate gives them, turned into those of this
//! library. Each function here takes one kind of node apart and keeps the fields
//! that the engine reads; nothing is promised of them one by one, only of the
//! whole.

use vstd::prelude::*;

use crate::sql::ast::{
    AssignmentSpec, ColumnSetting, ColumnSpec, DropKind, Expression, IndexSpec, Literal, Node,
    Operator, OptionToken, OrderSpec, Path, Projection, QueryBody, SelectQuery, SqlStatement,
    SqlType, TableRef,
};
use crate::sql::error::ParseFailure;

verus! {

#[verifier::external_type_specification]
#[verifier::external_body]
pub struct ExObjectName(sqlparser::ast::ObjectName);

#[verifier::external_type_specification]
#[verifier::external_body]
pub struct ExBinaryOperator(sqlparser::ast::BinaryOperator);

#[verifier::external_type_specification]
#[verifier::external_body]
pub struct ExValueWithSpan(sqlparser::ast::ValueWithSpan);

#[verifier::external_type_specification]
#[verifier::external_body]
pub struct ExExpr(sqlparser::ast::Expr);

#[verifier::external_type_specification]
#[verifier::external_body]
pub struct ExDataType(sqlparser::ast::DataType);

#[verifier::external_type_specification]
#[verifier::external_body]
pub struct ExColumnOption(sqlparser::ast::ColumnOption);

#[verifier::external_type_specification]
#[verifier::external_body]
pub struct ExColumnDef(sqlparser::ast::ColumnDef);

#[verifier::external_type_specification]
#[verifier::external_body]
pub struct ExSelectItem(sqlparser::ast::SelectItem);

#[verifier::external_type_specification]
#[verifier::external_body]
pub struct ExTableFactor(sqlparser::ast::TableFactor);

#[verifier::external_type_specification]
#[verifier::external_body]
pub struct ExSetExpr(sqlparser::ast::SetExpr);

#[verifier::external_type_specification]
#[verifier::external_body]
pub struct ExQuery(sqlparser::ast::Query);

#[verifier::external_type_specification]
#[verifier::external_body]
pub struct ExAssignment(sqlparser::ast::Assignment);

#[verifier::external_type_specification]
#[verifier::external_body]
pub struct ExObjectType(sqlparser::ast::ObjectType);

#[verifier::external_type_specification]
#[verifier::external_body]
pub struct ExUse(sqlparser::ast::Use);

#[verifier::external_type_specification]
#[verifier::external_body]
pub struct ExCreateIndex(sqlparser::ast::CreateIndex);

#[verifier::external_type_specification]
#[verifier::external_body]
pub struct ExStatement(sqlparser::ast::Statement);

#[verifier::external_type_specification]
#[verifier::external_body]
pub struct ExParserError(sqlparser::parser::ParserError);

/// The parts of an `ObjectName`.
#[verifier::external_body]
fn path(name: sqlparser::ast::ObjectName) -> (r: Path) {
    let parts = name.0.into_iter().map(|part| match part {
        sqlparser::ast::ObjectNamePart::Identifier(i) => i.value,
    });
    Path { parts: parts.collect() }
}

/// The operator that a `BinaryOperator` is.
#[verifier::external_body]
fn operator(op: sqlparser::ast::BinaryOperator) -> (r: Operator) {
    match op {
        sqlparser::ast::BinaryOperator::Eq => Operator::Eq,
        sqlparser::ast::BinaryOperator::NotEq => Operator::NotEq,
        sqlparser::ast::BinaryOperator::Gt => Operator::Gt,
        sqlparser::ast::BinaryOperator::GtEq => Operator::GtEq,
        sqlparser::ast::BinaryOperator::Lt => Operator::Lt,
        sqlparser::ast::BinaryOperator::LtEq => Operator::LtEq,
        sqlparser::ast::BinaryOperator::And => Operator::And,
        sqlparser::ast::BinaryOperator::Or => Operator::Or,
        other => Operator::Other(format!("{other:?}")),
    }
}

/// The literal that a `ValueWithSpan` holds.
#[verifier::external_body]
fn literal(v: sqlparser::ast::ValueWithSpan) -> (r: Literal) {
    match v.value {
        sqlparser::ast::Value::Number(n, _) => Literal::Number(n),
        sqlparser::ast::Value::SingleQuotedString(s) => Literal::Text(s),
        sqlparser::ast::Value::Null => Literal::Null,
        _ => Literal::Other,
    }
}

/// An `Expr`, with its debug text.
#[verifier::external_body]
fn expression(e: sqlparser::ast::Expr) -> (r: Expression) {
    let text = format!("{e:?}");
    Expression { node: node(e), text }
}

/// The form of an `Expr`.
#[verifier::external_body]
fn node(e: sqlparser::ast::Expr) -> (r: Node) {
    match e {
        sqlparser::ast::Expr::Identifier(i) => Node::Identifier(i.value),
        sqlparser::ast::Expr::Value(v) => Node::Value(literal(v)),
        sqlparser::ast::Expr::Wildcard(_) => Node::Wildcard,
        sqlparser::ast::Expr::Function(f) => Node::Function(f.name.to_string()),
        sqlparser::ast::Expr::UnaryOp { op: sqlparser::ast::UnaryOperator::Minus, expr } => {
            Node::Negated(Box::new(expression(*expr)))
        },
        other => condition(other),
    }
}

/// The form of an `Expr` that compares.
#[verifier::external_body]
fn condition(e: sqlparser::ast::Expr) -> (r: Node) {
    let boxed = |x: Box<sqlparser::ast::Expr>| Box::new(expression(*x));
    match e {
        sqlparser::ast::Expr::BinaryOp { left, op, right } => {
            Node::Binary { left: boxed(left), op: operator(op), right: boxed(right) }
        },
        sqlparser::ast::Expr::Like { negated, expr, pattern, .. } => {
            Node::Like { negated, operand: boxed(expr), pattern: boxed(pattern) }
        },
        sqlparser::ast::Expr::IsNull(x) => Node::IsNull(boxed(x)),
        sqlparser::ast::Expr::IsNotNull(x) => Node::IsNotNull(boxed(x)),
        other => membership(other),
    }
}

/// The form of an `Expr` that tells membership.
#[verifier::external_body]
fn membership(e: sqlparser::ast::Expr) -> (r: Node) {
    let boxed = |x: Box<sqlparser::ast::Expr>| Box::new(expression(*x));
    match e {
        sqlparser::ast::Expr::Between { expr, negated, low, high } => {
            Node::Between { operand: boxed(expr), negated, low: boxed(low), high: boxed(high) }
        },
        sqlparser::ast::Expr::InList { expr, list, negated } => Node::InList {
            operand: boxed(expr),
            list: list.into_iter().map(expression).collect(),
            negated,
        },
        _ => Node::Other,
    }
}

/// The type of numbers that a `DataType` is; any other goes to the types of texts.
#[verifier::external_body]
fn sql_type(t: sqlparser::ast::DataType) -> (r: SqlType) {
    match t {
        sqlparser::ast::DataType::Int(_) => SqlType::Int,
        sqlparser::ast::DataType::Integer(_) => SqlType::Int,
        sqlparser::ast::DataType::BigInt(_) => SqlType::BigInt,
        sqlparser::ast::DataType::SmallInt(_) => SqlType::SmallInt,
        sqlparser::ast::DataType::TinyInt(_) => SqlType::TinyInt,
        sqlparser::ast::DataType::Float(_) => SqlType::Float,
        sqlparser::ast::DataType::Double(_) => SqlType::Double,
        sqlparser::ast::DataType::Boolean => SqlType::Boolean,
        other => text_type(other),
    }
}

/// The type of texts, bytes and times that a `DataType` is.
#[verifier::external_body]
fn text_type(t: sqlparser::ast::DataType) -> (r: SqlType) {
    match t {
        sqlparser::ast::DataType::Text => SqlType::Text,
        sqlparser::ast::DataType::Varchar(_) => SqlType::Varchar,
        sqlparser::ast::DataType::Char(_) => SqlType::Char,
        sqlparser::ast::DataType::Blob(_) => SqlType::Blob,
        sqlparser::ast::DataType::Date => SqlType::Date,
        sqlparser::ast::DataType::Datetime(_) => SqlType::Datetime,
        sqlparser::ast::DataType::Timestamp(..) => SqlType::Timestamp,
        sqlparser::ast::DataType::JSON => SqlType::Json,
        _ => SqlType::Other,
    }
}

/// The setting that a `ColumnOption` is.
#[verifier::external_body]
fn setting(option: sqlparser::ast::ColumnOption) -> (r: ColumnSetting) {
    match option {
        sqlparser::ast::ColumnOption::DialectSpecific(tokens) => ColumnSetting::Dialect(
            tokens.into_iter().map(|t| match t {
                sqlparser::tokenizer::Token::Word(w) => {
                    OptionToken::Word { value: w.value, quoted: w.quote_style.is_some() }
                },
                _ => OptionToken::Other,
            }).collect(),
        ),
        sqlparser::ast::ColumnOption::Default(e) => ColumnSetting::Default(expression(e)),
        _ => ColumnSetting::Other,
    }
}

/// The column that a `ColumnDef` defines.
#[verifier::external_body]
fn column(c: sqlparser::ast::ColumnDef) -> (r: ColumnSpec) {
    ColumnSpec {
        name: c.name.value,
        data_type: sql_type(c.data_type),
        settings: c.options.into_iter().map(|o| setting(o.option)).collect(),
    }
}

/// What a `SelectItem` puts out.
#[verifier::external_body]
fn projection(item: sqlparser::ast::SelectItem) -> (r: Projection) {
    match item {
        sqlparser::ast::SelectItem::Wildcard(_) => Projection::Wildcard,
        sqlparser::ast::SelectItem::UnnamedExpr(e) => Projection::Plain(expression(e)),
        _ => Projection::Other,
    }
}

/// What a `TableFactor` reads from.
#[verifier::external_body]
fn table(t: sqlparser::ast::TableFactor) -> (r: TableRef) {
    match t {
        sqlparser::ast::TableFactor::Table { name, .. } => TableRef::Named(path(name)),
        _ => TableRef::Other,
    }
}

/// The body of a query.
#[verifier::external_body]
fn body(b: sqlparser::ast::SetExpr) -> (r: QueryBody) {
    match b {
        sqlparser::ast::SetExpr::Select(s) => QueryBody::Select {
            projection: s.projection.into_iter().map(projection).collect(),
            from: s.from.into_iter().map(|t| table(t.relation)).collect(),
            selection: s.selection.map(expression),
        },
        sqlparser::ast::SetExpr::Values(v) => QueryBody::Values(
            v.rows.into_iter().map(|row| row.into_iter().map(expression).collect()).collect(),
        ),
        _ => QueryBody::Other,
    }
}

/// A `Query`. An order by all columns is none.
#[verifier::external_body]
fn query(q: sqlparser::ast::Query) -> (r: SelectQuery) {
    let order_by = match q.order_by.map(|o| o.kind) {
        Some(sqlparser::ast::OrderByKind::Expressions(v)) => v,
        _ => Vec::new(),
    };
    SelectQuery {
        body: body(*q.body),
        order_by: order_by.into_iter().map(|o| OrderSpec {
            expr: expression(o.expr),
            ascending: o.options.asc,
        }).collect(),
        limit: q.limit.map(expression),
        offset: q.offset.map(|o| expression(o.value)),
    }
}

/// An `Assignment`. One to several columns has no target.
#[verifier::external_body]
fn assignment(a: sqlparser::ast::Assignment) -> (r: AssignmentSpec) {
    let target = match a.target {
        sqlparser::ast::AssignmentTarget::ColumnName(n) => Some(path(n)),
        sqlparser::ast::AssignmentTarget::Tuple(_) => None,
    };
    AssignmentSpec { target, value: expression(a.value) }
}

/// The kind of object that an `ObjectType` is.
#[verifier::external_body]
fn drop_kind(t: sqlparser::ast::ObjectType) -> (r: DropKind) {
    match t {
        sqlparser::ast::ObjectType::Table => DropKind::Table,
        sqlparser::ast::ObjectType::Database => DropKind::Database,
        sqlparser::ast::ObjectType::Index => DropKind::Index,
        _ => DropKind::Other,
    }
}

/// The database that a `Use` names.
#[verifier::external_body]
fn use_target(u: sqlparser::ast::Use) -> (r: Option<Path>) {
    match u {
        sqlparser::ast::Use::Database(n) => Some(path(n)),
        sqlparser::ast::Use::Object(n) => Some(path(n)),
        _ => None,
    }
}

/// The index that a `CreateIndex` defines.
#[verifier::external_body]
fn index(c: sqlparser::ast::CreateIndex) -> (r: IndexSpec) {
    IndexSpec {
        name: c.name.map(path),
        table: path(c.table_name),
        using: c.using.map(|i| i.value),
        columns: c.columns.into_iter().map(|o| expression(o.expr)).collect(),
        unique: c.unique,
    }
}

/// The `Statement`s that define something.
#[verifier::external_body]
fn definition(s: sqlparser::ast::Statement) -> (r: SqlStatement) {
    match s {
        sqlparser::ast::Statement::CreateTable(c) => SqlStatement::CreateTable {
            name: path(c.name),
            if_not_exists: c.if_not_exists,
            specs: c.columns.into_iter().map(column).collect(),
        },
        sqlparser::ast::Statement::CreateDatabase { db_name, if_not_exists, .. } => {
            SqlStatement::CreateDatabase { name: path(db_name), if_not_exists }
        },
        sqlparser::ast::Statement::CreateIndex(c) => SqlStatement::CreateIndex(index(c)),
        sqlparser::ast::Statement::Drop { object_type, if_exists, names, .. } => {
            drop_of(object_type, names, if_exists)
        },
        other => change(other),
    }
}

/// A `Statement::Drop`.
#[verifier::external_body]
fn drop_of(
    kind: sqlparser::ast::ObjectType,
    names: Vec<sqlparser::ast::ObjectName>,
    if_exists: bool,
) -> (r: SqlStatement) {
    SqlStatement::Drop {
        kind: drop_kind(kind),
        names: names.into_iter().map(path).collect(),
        if_exists,
    }
}

/// The `Statement`s that change rows.
#[verifier::external_body]
fn change(s: sqlparser::ast::Statement) -> (r: SqlStatement) {
    match s {
        sqlparser::ast::Statement::Insert(i) => SqlStatement::Insert {
            table: match i.table {
                sqlparser::ast::TableObject::TableName(n) => TableRef::Named(path(n)),
                _ => TableRef::Other,
            },
            columns: i.columns.into_iter().map(|c| c.value).collect(),
            source: i.source.map(|q| query(*q)),
        },
        other => update(other),
    }
}

/// The `Statement`s that change the rows that a condition selects.
#[verifier::external_body]
fn update(s: sqlparser::ast::Statement) -> (r: SqlStatement) {
    match s {
        sqlparser::ast::Statement::Update { table: t, assignments, selection, .. } => {
            SqlStatement::Update {
                table: table(t.relation),
                assignments: assignments.into_iter().map(assignment).collect(),
                selection: selection.map(expression),
            }
        },
        other => removal(other),
    }
}

/// The `Statement`s that remove the rows that a condition selects.
#[verifier::external_body]
fn removal(s: sqlparser::ast::Statement) -> (r: SqlStatement) {
    match s {
        sqlparser::ast::Statement::Delete(d) => SqlStatement::Delete {
            tables: d.tables.into_iter().map(path).collect(),
            from: match d.from {
                sqlparser::ast::FromTable::WithFromKeyword(v) => v,
                sqlparser::ast::FromTable::WithoutKeyword(v) => v,
            }.into_iter().map(|t| table(t.relation)).collect(),
            selection: d.selection.map(expression),
        },
        other => question(other),
    }
}

/// The `Statement`s that ask.
#[verifier::external_body]
fn question(s: sqlparser::ast::Statement) -> (r: SqlStatement) {
    match s {
        sqlparser::ast::Statement::Query(q) => SqlStatement::Select(query(*q)),
        sqlparser::ast::Statement::ShowDatabases { .. } => SqlStatement::ShowDatabases,
        sqlparser::ast::Statement::ShowTables { .. } => SqlStatement::ShowTables,
        sqlparser::ast::Statement::Use(u) => SqlStatement::Use(use_target(u)),
        sqlparser::ast::Statement::ExplainTable { table_name, .. } => {
            SqlStatement::Describe(path(table_name))
        },
        _ => SqlStatement::Unsupported,
    }
}

/// The failure that a `ParserError` is.
#[verifier::external_body]
fn failure(e: sqlparser::parser::ParserError) -> (r: ParseFailure) {
    match e {
        sqlparser::parser::ParserError::TokenizerError(s) => ParseFailure::Tokenizer(s),
        sqlparser::parser::ParserError::ParserError(s) => ParseFailure::Parser(s),
        sqlparser::parser::ParserError::RecursionLimitExceeded => ParseFailure::RecursionLimit,
    }
}

/// `Parser::parse_sql` of `sqlparser` with its MySQL dialect: what it gives
/// depends on the text alone. It unwraps what it reads behind the operator `DIV`, behind
/// `FOR CHANNEL` and behind `GRANTED BY`, so texts in which that can fail are left out.
/// Each statement is kept by the parts that the engine reads, and by its debug text over
/// several lines.
#[verifier::external_body]
pub(crate) fn statements_of(sql: &str) -> (r: Result<
    (Vec<SqlStatement>, Vec<String>),
    ParseFailure,
>)
    requires
        crate::sql::guard::reads_safely(sql@),
    ensures
        match r {
            Ok((v, shown)) => crate::sql::parser::read_sql(sql@) == Ok::<
                (Seq<SqlStatement>, Seq<Seq<char>>),
                ParseFailure,
            >((v@, crate::model::views(shown@))),
            Err(e) => crate::sql::parser::read_sql(sql@) == Err::<
                (Seq<SqlStatement>, Seq<Seq<char>>),
                ParseFailure,
            >(e),
        },
{
    sqlparser::parser::Parser::parse_sql(&sqlparser::dialect::MySqlDialect {}, sql)
        .map(|statements| {
            let shown = statements.iter().map(|s| format!("{s:#?}")).collect();
            (statements.into_iter().map(definition).collect(), shown)
        })
        .map_err(failure)
}

} // verus!
