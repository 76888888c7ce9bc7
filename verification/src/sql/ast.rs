//! The statements that the engine reads, with the parts it reads of them.

use vstd::prelude::*;

use crate::model;
use crate::text;

verus! {

/// A literal.
#[derive(Debug)]
pub enum Literal {
    /// A number as it was written.
    Number(String),
    /// A text in single quotes.
    Text(String),
    Null,
    /// Any other literal.
    Other,
}

/// A binary operator.
#[derive(Debug)]
pub enum Operator {
    Eq,
    NotEq,
    Gt,
    GtEq,
    Lt,
    LtEq,
    And,
    Or,
    /// Any other operator, by its name.
    Other(String),
}

/// An expression: its form, and a text that shows its whole structure.
#[derive(Debug)]
pub struct Expression {
    pub node: Node,
    pub text: String,
}

/// The form of an expression.
#[derive(Debug)]
pub enum Node {
    Identifier(String),
    Value(Literal),
    Wildcard,
    Binary { left: Box<Expression>, op: Operator, right: Box<Expression> },
    Like { negated: bool, operand: Box<Expression>, pattern: Box<Expression> },
    IsNull(Box<Expression>),
    IsNotNull(Box<Expression>),
    Between {
        operand: Box<Expression>,
        negated: bool,
        low: Box<Expression>,
        high: Box<Expression>,
    },
    InList { operand: Box<Expression>, list: Vec<Expression>, negated: bool },
    /// An expression behind a minus sign.
    Negated(Box<Expression>),
    /// A function call, by the function's name.
    Function(String),
    /// Any other expression.
    Other,
}

/// A name of several parts, which stand with dots between them.
#[derive(Debug)]
pub struct Path {
    pub parts: Vec<String>,
}

/// The text of a name: its parts with dots between them.
pub open spec fn path_text(p: Path) -> Seq<char> {
    text::joined(model::views(p.parts@), "."@)
}

impl Path {
    /// The text of the name: its parts with dots between them.
    pub fn to_string(&self) -> (r: String)
        ensures
            r@ == path_text(*self),
    {
        text::join(&self.parts, ".")
    }
}

/// The type of a column in a definition.
#[derive(Debug, Clone, Copy, PartialEq, Eq, Structural)]
pub enum SqlType {
    Int,
    BigInt,
    SmallInt,
    TinyInt,
    Float,
    Double,
    Text,
    Varchar,
    Char,
    Boolean,
    Blob,
    Date,
    Datetime,
    Timestamp,
    Json,
    Other,
}

/// A token of an option that belongs to the dialect.
#[derive(Debug)]
pub enum OptionToken {
    Word { value: String, quoted: bool },
    Other,
}

/// An option of a column in a definition.
#[derive(Debug)]
pub enum ColumnSetting {
    Dialect(Vec<OptionToken>),
    Default(Expression),
    Other,
}

/// A column in the definition of a table.
#[derive(Debug)]
pub struct ColumnSpec {
    pub name: String,
    pub data_type: SqlType,
    pub settings: Vec<ColumnSetting>,
}

/// What a query puts out.
#[derive(Debug)]
pub enum Projection {
    Wildcard,
    /// An expression without an alias.
    Plain(Expression),
    Other,
}

/// What a query reads from: a table by its name, or something else.
#[derive(Debug)]
pub enum TableRef {
    Named(Path),
    Other,
}

/// The name of what is read from; empty where it has none.
pub open spec fn table_text(t: TableRef) -> Seq<char> {
    match t {
        TableRef::Named(p) => path_text(p),
        TableRef::Other => Seq::empty(),
    }
}

impl TableRef {
    /// The name of what is read from; empty where it has none.
    pub fn name(&self) -> (r: String)
        ensures
            r@ == table_text(*self),
    {
        match self {
            TableRef::Named(p) => p.to_string(),
            TableRef::Other => String::new(),
        }
    }
}

/// One expression of an `ORDER BY`.
#[derive(Debug)]
pub struct OrderSpec {
    pub expr: Expression,
    pub ascending: Option<bool>,
}

/// The body of a query.
#[derive(Debug)]
pub enum QueryBody {
    Select { projection: Vec<Projection>, from: Vec<TableRef>, selection: Option<Expression> },
    Values(Vec<Vec<Expression>>),
    Other,
}

/// A query.
#[derive(Debug)]
pub struct SelectQuery {
    pub body: QueryBody,
    pub order_by: Vec<OrderSpec>,
    pub limit: Option<Expression>,
    pub offset: Option<Expression>,
}

/// One assignment of an `UPDATE`: to a column, or to something else.
#[derive(Debug)]
pub struct AssignmentSpec {
    pub target: Option<Path>,
    pub value: Expression,
}

/// What a `DROP` removes.
#[derive(Debug, Clone, Copy, PartialEq, Eq, Structural)]
pub enum DropKind {
    Table,
    Database,
    Index,
    Other,
}

/// The definition of an index.
#[derive(Debug)]
pub struct IndexSpec {
    pub name: Option<Path>,
    pub table: Path,
    pub using: Option<String>,
    pub columns: Vec<Expression>,
    pub unique: bool,
}

/// A statement.
#[derive(Debug)]
pub enum SqlStatement {
    CreateTable { name: Path, if_not_exists: bool, specs: Vec<ColumnSpec> },
    Insert { table: TableRef, columns: Vec<String>, source: Option<SelectQuery> },
    Select(SelectQuery),
    Delete { tables: Vec<Path>, from: Vec<TableRef>, selection: Option<Expression> },
    Update { table: TableRef, assignments: Vec<AssignmentSpec>, selection: Option<Expression> },
    Drop { kind: DropKind, names: Vec<Path>, if_exists: bool },
    CreateDatabase { name: Path, if_not_exists: bool },
    ShowDatabases,
    ShowTables,
    /// `USE`, where it names a database.
    Use(Option<Path>),
    Describe(Path),
    CreateIndex(IndexSpec),
    Unsupported,
}

} // verus!
