//! Values, columns and their types.

use std::collections::HashMap;

use vstd::prelude::*;
use vstd::utf8::*;

use crate::float;
use crate::model;
use crate::names::NameMap;
use crate::order;
use crate::order::Order;
use crate::text;
use crate::text::same_text;

verus! {

broadcast use {vstd::std_specs::hash::group_hash_axioms, crate::model::group_views};

/// What a copy of a value keeps.
pub trait Duplicate: View + Sized {
    /// A value with the same view.
    fn duplicate(&self) -> (r: Self)
        ensures
            r@ == self@,
    ;
}

/// Copies the items of a slice.
pub fn duplicate_all<T: Duplicate>(items: &[T]) -> (r: Vec<T>)
    ensures
        model::views(r@) == model::views(items@),
{
    let mut out: Vec<T> = Vec::new();
    let mut i: usize = 0;
    while i < items.len()
        invariant
            i <= items.len(),
            model::views(out@) == model::views(items@).take(i as int),
        decreases items.len() - i,
    {
        out.push(items[i].duplicate());
        i = i + 1;
        assert(model::views(out@) =~= model::views(items@).take(i as int));
    }
    assert(model::views(items@).take(items@.len() as int) =~= model::views(items@));
    out
}

impl Duplicate for String {
    fn duplicate(&self) -> (r: Self) {
        self.clone()
    }
}

/// A value of a row. Floating-point numbers are held as their bits.
#[derive(Debug)]
pub enum Value {
    Null,
    Int(i64),
    UInt(u64),
    Float(u32),
    Double(u64),
    Bytes(Vec<u8>),
    Text(String),
}

/// What a `Value` stands for.
#[verifier::ext_equal]
pub enum Val {
    Null,
    Int(i64),
    UInt(u64),
    Float(u32),
    Double(u64),
    Bytes(Seq<u8>),
    Text(Seq<char>),
}

impl View for Value {
    type V = Val;

    open spec fn view(&self) -> Val {
        match self {
            Value::Null => Val::Null,
            Value::Int(n) => Val::Int(*n),
            Value::UInt(n) => Val::UInt(*n),
            Value::Float(n) => Val::Float(*n),
            Value::Double(n) => Val::Double(*n),
            Value::Bytes(b) => Val::Bytes(b@),
            Value::Text(s) => Val::Text(s@),
        }
    }
}

impl Clone for Value {
    fn clone(&self) -> (r: Self)
        ensures
            r@ == self@,
    {
        self.duplicate()
    }
}

impl Duplicate for Value {
    fn duplicate(&self) -> (r: Self) {
        match self {
            Value::Null => Value::Null,
            Value::Int(n) => Value::Int(*n),
            Value::UInt(n) => Value::UInt(*n),
            Value::Float(n) => Value::Float(*n),
            Value::Double(n) => Value::Double(*n),
            Value::Bytes(b) => Value::Bytes(vstd::slice::slice_to_vec(b.as_slice())),
            Value::Text(s) => Value::Text(s.clone()),
        }
    }
}

/// An SQL column type, numbered as in the wire protocol.
#[derive(Debug, Clone, Copy, PartialEq, Eq, Structural)]
pub enum ColumnType {
    Decimal,
    Tiny,
    Short,
    Long,
    Float,
    Double,
    Null,
    Timestamp,
    LongLong,
    Int24,
    Date,
    Time,
    DateTime,
    Year,
    VarChar,
    Bit,
    Json,
    NewDecimal,
    Enum,
    SetOf,
    TinyBlob,
    MediumBlob,
    LongBlob,
    Blob,
    VarString,
    String,
    Geometry,
}

/// The number of a column type in the wire protocol.
pub open spec fn type_code(t: ColumnType) -> u8 {
    match t {
        ColumnType::Decimal => 0,
        ColumnType::Tiny => 1,
        ColumnType::Short => 2,
        ColumnType::Long => 3,
        ColumnType::Float => 4,
        ColumnType::Double => 5,
        ColumnType::Null => 6,
        ColumnType::Timestamp => 7,
        ColumnType::LongLong => 8,
        ColumnType::Int24 => 9,
        ColumnType::Date => 10,
        ColumnType::Time => 11,
        ColumnType::DateTime => 12,
        ColumnType::Year => 13,
        ColumnType::VarChar => 15,
        ColumnType::Bit => 16,
        ColumnType::Json => 245,
        ColumnType::NewDecimal => 246,
        ColumnType::Enum => 247,
        ColumnType::SetOf => 248,
        ColumnType::TinyBlob => 249,
        ColumnType::MediumBlob => 250,
        ColumnType::LongBlob => 251,
        ColumnType::Blob => 252,
        ColumnType::VarString => 253,
        ColumnType::String => 254,
        ColumnType::Geometry => 255,
    }
}

/// The column type that an SQL type name in upper case stands for.
pub open spec fn type_named(upper: Seq<char>) -> ColumnType {
    if upper == "INT"@ || upper == "INTEGER"@ || upper == "INT4"@ {
        ColumnType::Long
    } else if upper == "BIGINT"@ || upper == "INT8"@ {
        ColumnType::LongLong
    } else if upper == "SMALLINT"@ || upper == "INT2"@ {
        ColumnType::Short
    } else if upper == "TINYINT"@ || upper == "BOOLEAN"@ || upper == "BOOL"@ {
        ColumnType::Tiny
    } else if upper == "FLOAT"@ {
        ColumnType::Float
    } else if upper == "DOUBLE"@ || upper == "REAL"@ {
        ColumnType::Double
    } else if upper == "DECIMAL"@ || upper == "NUMERIC"@ {
        ColumnType::NewDecimal
    } else if upper == "CHAR"@ {
        ColumnType::String
    } else if upper == "TEXT"@ || upper == "CLOB"@ || upper == "BLOB"@ {
        ColumnType::Blob
    } else if upper == "DATE"@ {
        ColumnType::Date
    } else if upper == "TIMESTAMP"@ {
        ColumnType::Timestamp
    } else if upper == "JSON"@ {
        ColumnType::Json
    } else {
        ColumnType::VarChar
    }
}

/// The display length of a column type.
pub open spec fn type_length(t: ColumnType) -> u32 {
    match t {
        ColumnType::Tiny => 4,
        ColumnType::Short => 6,
        ColumnType::Long => 11,
        ColumnType::LongLong => 20,
        ColumnType::Float => 12,
        ColumnType::Double => 22,
        ColumnType::Blob | ColumnType::VarString => 65535,
        ColumnType::Date => 10,
        ColumnType::Timestamp => 19,
        _ => 255,
    }
}

impl ColumnType {
    /// The number of the type in the wire protocol.
    pub fn code(&self) -> (r: u8)
        ensures
            r == type_code(*self),
    {
        match self {
            ColumnType::Decimal => 0,
            ColumnType::Tiny => 1,
            ColumnType::Short => 2,
            ColumnType::Long => 3,
            ColumnType::Float => 4,
            ColumnType::Double => 5,
            ColumnType::Null => 6,
            ColumnType::Timestamp => 7,
            ColumnType::LongLong => 8,
            ColumnType::Int24 => 9,
            ColumnType::Date => 10,
            ColumnType::Time => 11,
            ColumnType::DateTime => 12,
            ColumnType::Year => 13,
            ColumnType::VarChar => 15,
            ColumnType::Bit => 16,
            ColumnType::Json => 245,
            ColumnType::NewDecimal => 246,
            ColumnType::Enum => 247,
            ColumnType::SetOf => 248,
            ColumnType::TinyBlob => 249,
            ColumnType::MediumBlob => 250,
            ColumnType::LongBlob => 251,
            ColumnType::Blob => 252,
            ColumnType::VarString => 253,
            ColumnType::String => 254,
            ColumnType::Geometry => 255,
        }
    }

    /// The column type that an SQL type name stands for, in any case.
    pub fn from_sql_type(sql_type: &str) -> (r: Self)
        ensures
            r == type_named(text::uppercase(sql_type@)),
    {
        let upper = sql_type.to_uppercase();
        let u = upper.as_str();
        if same_text(u, "INT") || same_text(u, "INTEGER") || same_text(u, "INT4") {
            ColumnType::Long
        } else if same_text(u, "BIGINT") || same_text(u, "INT8") {
            ColumnType::LongLong
        } else if same_text(u, "SMALLINT") || same_text(u, "INT2") {
            ColumnType::Short
        } else if same_text(u, "TINYINT") || same_text(u, "BOOLEAN") || same_text(u, "BOOL") {
            ColumnType::Tiny
        } else if same_text(u, "FLOAT") {
            ColumnType::Float
        } else if same_text(u, "DOUBLE") || same_text(u, "REAL") {
            ColumnType::Double
        } else if same_text(u, "DECIMAL") || same_text(u, "NUMERIC") {
            ColumnType::NewDecimal
        } else if same_text(u, "CHAR") {
            ColumnType::String
        } else if same_text(u, "TEXT") || same_text(u, "CLOB") || same_text(u, "BLOB") {
            ColumnType::Blob
        } else if same_text(u, "DATE") {
            ColumnType::Date
        } else if same_text(u, "TIMESTAMP") {
            ColumnType::Timestamp
        } else if same_text(u, "JSON") {
            ColumnType::Json
        } else {
            ColumnType::VarChar
        }
    }

    /// The display length of the type.
    pub fn default_length(&self) -> (r: u32)
        ensures
            r == type_length(*self),
    {
        match self {
            ColumnType::Tiny => 4,
            ColumnType::Short => 6,
            ColumnType::Long => 11,
            ColumnType::LongLong => 20,
            ColumnType::Float => 12,
            ColumnType::Double => 22,
            ColumnType::Blob | ColumnType::VarString => 65535,
            ColumnType::Date => 10,
            ColumnType::Timestamp => 19,
            _ => 255,
        }
    }
}

/// What a column holds where a row gives it no value.
#[derive(Debug)]
pub enum DefaultExpr {
    Value(Value),
    CurrentTimestamp,
}

/// What a `DefaultExpr` stands for.
#[verifier::ext_equal]
pub enum DefaultV {
    Value(Val),
    CurrentTimestamp,
}

impl View for DefaultExpr {
    type V = DefaultV;

    open spec fn view(&self) -> DefaultV {
        match self {
            DefaultExpr::Value(v) => DefaultV::Value(v@),
            DefaultExpr::CurrentTimestamp => DefaultV::CurrentTimestamp,
        }
    }
}

impl Clone for DefaultExpr {
    fn clone(&self) -> (r: Self)
        ensures
            r@ == self@,
    {
        self.duplicate()
    }
}

impl Duplicate for DefaultExpr {
    fn duplicate(&self) -> (r: Self) {
        match self {
            DefaultExpr::Value(v) => DefaultExpr::Value(v.duplicate()),
            DefaultExpr::CurrentTimestamp => DefaultExpr::CurrentTimestamp,
        }
    }
}

/// A column of a table or of a result.
#[derive(Debug)]
pub struct Column {
    pub name: String,
    pub table: String,
    pub col_type: ColumnType,
    pub column_length: u32,
    pub charset: u16,
    pub flags: u16,
    pub decimals: u8,
    pub auto_increment: bool,
    pub default_expr: Option<DefaultExpr>,
}

/// What a `Column` stands for.
#[verifier::ext_equal]
pub struct ColumnV {
    pub name: Seq<char>,
    pub table: Seq<char>,
    pub col_type: ColumnType,
    pub column_length: u32,
    pub charset: u16,
    pub flags: u16,
    pub decimals: u8,
    pub auto_increment: bool,
    pub default_expr: Option<DefaultV>,
}

impl View for Column {
    type V = ColumnV;

    open spec fn view(&self) -> ColumnV {
        ColumnV {
            name: self.name@,
            table: self.table@,
            col_type: self.col_type,
            column_length: self.column_length,
            charset: self.charset,
            flags: self.flags,
            decimals: self.decimals,
            auto_increment: self.auto_increment,
            default_expr: model::view_opt(self.default_expr),
        }
    }
}

impl Clone for Column {
    fn clone(&self) -> (r: Self)
        ensures
            r@ == self@,
    {
        self.duplicate()
    }
}

impl Duplicate for Column {
    fn duplicate(&self) -> (r: Self) {
        Column {
            name: self.name.clone(),
            table: self.table.clone(),
            col_type: self.col_type,
            column_length: self.column_length,
            charset: self.charset,
            flags: self.flags,
            decimals: self.decimals,
            auto_increment: self.auto_increment,
            default_expr: match &self.default_expr {
                Some(d) => Some(d.duplicate()),
                None => None,
            },
        }
    }
}

/// A column of a type with the type's own length and nothing else set.
pub open spec fn plain_column(name: Seq<char>, table: Seq<char>, col_type: ColumnType) -> ColumnV {
    ColumnV {
        name,
        table,
        col_type,
        column_length: type_length(col_type),
        charset: 45,
        flags: 0,
        decimals: 0,
        auto_increment: false,
        default_expr: None,
    }
}

impl Column {
    /// A column of a type, with the general UTF-8 character set.
    pub fn new(name: &str, table: &str, col_type: ColumnType) -> (r: Self)
        ensures
            r@ == plain_column(name@, table@, col_type),
    {
        Column {
            name: name.to_string(),
            table: table.to_string(),
            col_type,
            column_length: col_type.default_length(),
            charset: 45,
            flags: 0,
            decimals: 0,
            auto_increment: false,
            default_expr: None,
        }
    }
}

// ---------------------------------------------------------------------------
// Floating-point numbers as text
// ---------------------------------------------------------------------------

/// The floating-point numbers that literals denote, and the decimal texts by
/// which such numbers are shown. What it holds was computed elsewhere: reading
/// and printing such a number is arithmetic on floating-point numbers.
pub struct Numbers {
    literals: NameMap<u64>,
    doubles: HashMap<u64, String>,
    singles: HashMap<u32, String>,
}

/// What a `Numbers` stands for.
#[verifier::ext_equal]
pub struct NumbersV {
    /// The double-precision number, as bits, that a literal denotes.
    pub literals: Map<Seq<char>, u64>,
    /// The decimal text of a double-precision number.
    pub doubles: Map<u64, Seq<char>>,
    /// The decimal text of a single-precision number.
    pub singles: Map<u32, Seq<char>>,
}

impl View for Numbers {
    type V = NumbersV;

    closed spec fn view(&self) -> NumbersV {
        NumbersV {
            literals: self.literals@,
            doubles: self.doubles@.map_values(|s: String| s@),
            singles: self.singles@.map_values(|s: String| s@),
        }
    }
}

/// The decimal text of a double-precision number; empty where none is known.
pub open spec fn double_text(n: NumbersV, bits: u64) -> Seq<char> {
    if n.doubles.contains_key(bits) {
        n.doubles[bits]
    } else {
        Seq::empty()
    }
}

/// The decimal text of a single-precision number; empty where none is known.
pub open spec fn single_text(n: NumbersV, bits: u32) -> Seq<char> {
    if n.singles.contains_key(bits) {
        n.singles[bits]
    } else {
        Seq::empty()
    }
}

/// No literal and no number is known.
pub open spec fn no_numbers() -> NumbersV {
    NumbersV { literals: Map::empty(), doubles: Map::empty(), singles: Map::empty() }
}

impl Numbers {
    /// No number is known.
    pub fn new() -> (r: Self)
        ensures
            r@ == no_numbers(),
    {
        let r = Numbers {
            literals: NameMap::new(),
            doubles: HashMap::new(),
            singles: HashMap::new(),
        };
        assert(r@.doubles =~= Map::empty());
        assert(r@.singles =~= Map::empty());
        r
    }

    /// Records which number a literal denotes.
    pub fn learn_literal(&mut self, literal: String, bits: u64)
        ensures
            final(self)@ == (NumbersV {
                literals: old(self)@.literals.insert(literal@, bits),
                ..old(self)@
            }),
    {
        self.literals.insert(literal, bits);
    }

    /// Records the decimal text of a double-precision number.
    pub fn learn_double(&mut self, bits: u64, shown: String)
        ensures
            final(self)@ == (NumbersV {
                doubles: old(self)@.doubles.insert(bits, shown@),
                ..old(self)@
            }),
    {
        self.doubles.insert(bits, shown);
        assert(self@.doubles =~= old(self)@.doubles.insert(bits, shown@));
    }

    /// Records the decimal text of a single-precision number.
    pub fn learn_single(&mut self, bits: u32, shown: String)
        ensures
            final(self)@ == (NumbersV {
                singles: old(self)@.singles.insert(bits, shown@),
                ..old(self)@
            }),
    {
        self.singles.insert(bits, shown);
        assert(self@.singles =~= old(self)@.singles.insert(bits, shown@));
    }

    /// The double-precision number that a literal denotes.
    pub fn double_of(&self, literal: &str) -> (r: Option<u64>)
        ensures
            match r {
                Some(bits) => self@.literals.contains_key(literal@) && self@.literals[literal@]
                    == bits,
                None => !self@.literals.contains_key(literal@),
            },
    {
        match self.literals.get(literal) {
            Some(bits) => Some(*bits),
            None => None,
        }
    }

    /// The decimal text of a double-precision number; empty where none is known.
    pub fn show_double(&self, bits: u64) -> (r: String)
        ensures
            r@ == double_text(self@, bits),
    {
        match self.doubles.get(&bits) {
            Some(s) => s.clone(),
            None => String::new(),
        }
    }

    /// The decimal text of a single-precision number; empty where none is known.
    pub fn show_single(&self, bits: u32) -> (r: String)
        ensures
            r@ == single_text(self@, bits),
    {
        match self.singles.get(&bits) {
            Some(s) => s.clone(),
            None => String::new(),
        }
    }
}

/// The text of a value.
pub open spec fn val_text(n: NumbersV, v: Val) -> Seq<char> {
    match v {
        Val::Null => "NULL"@,
        Val::Int(i) => text::int_text(i as int),
        Val::UInt(i) => text::nat_text(i as nat),
        Val::Float(bits) => single_text(n, bits),
        Val::Double(bits) => double_text(n, bits),
        Val::Bytes(b) => text::lossy_text(b),
        Val::Text(s) => s,
    }
}

// ---------------------------------------------------------------------------
// The total order of values
// ---------------------------------------------------------------------------

pub open spec fn variant_rank(v: Val) -> int {
    match v {
        Val::Null => 0,
        Val::Int(_) => 1,
        Val::UInt(_) => 2,
        Val::Float(_) => 3,
        Val::Double(_) => 4,
        Val::Bytes(_) => 5,
        Val::Text(_) => 6,
    }
}

/// The total order in which indexes keep their keys: by kind, and within a kind
/// by value. Texts compare by their bytes.
pub open spec fn val_order(a: Val, b: Val) -> Order {
    match (a, b) {
        (Val::Int(x), Val::Int(y)) => order::int_order(x as int, y as int),
        (Val::UInt(x), Val::UInt(y)) => order::int_order(x as int, y as int),
        (Val::Float(x), Val::Float(y)) => float::total_order(x as u64, y as u64, float::SINGLE),
        (Val::Double(x), Val::Double(y)) => float::total_order(x, y, float::DOUBLE),
        (Val::Bytes(x), Val::Bytes(y)) => order::bytes_order(x, y),
        (Val::Text(x), Val::Text(y)) => order::bytes_order(encode_utf8(x), encode_utf8(y)),
        _ => order::int_order(variant_rank(a), variant_rank(b)),
    }
}

pub open spec fn by_val_order() -> spec_fn(Val, Val) -> Order {
    |a: Val, b: Val| val_order(a, b)
}

/// The order of index keys: column by column.
#[verifier::opaque]
pub open spec fn key_order(a: Seq<Val>, b: Seq<Val>) -> Order {
    order::lex(by_val_order(), a, b)
}

/// The order of values is total.
pub proof fn val_order_is_total()
    ensures
        order::total(by_val_order()),
{
    let f = by_val_order();
    let g = order::lex_by(order::byte_order());
    order::byte_order_is_total();
    order::lex_is_total(order::byte_order());
    assert forall|a: Val| #[trigger] f(a, a) == Order::Equal by {
        match a {
            Val::Bytes(x) => {
                assert(g(x, x) == Order::Equal);
            },
            Val::Text(x) => {
                assert(g(encode_utf8(x), encode_utf8(x)) == Order::Equal);
            },
            _ => {},
        }
    }
    assert forall|a: Val, b: Val| #[trigger] f(a, b) == Order::Equal implies a == b by {
        match (a, b) {
            (Val::Float(x), Val::Float(y)) => {
                float::rank_is_injective(x as u64, y as u64, float::SINGLE);
            },
            (Val::Double(x), Val::Double(y)) => {
                float::rank_is_injective(x, y, float::DOUBLE);
            },
            (Val::Bytes(x), Val::Bytes(y)) => {
                assert(g(x, y) == Order::Equal);
            },
            (Val::Text(x), Val::Text(y)) => {
                assert(g(encode_utf8(x), encode_utf8(y)) == Order::Equal);
                text::lemma_encoding_injective(x, y);
            },
            _ => {},
        }
    }
    assert forall|a: Val, b: Val| #[trigger] f(a, b) == order::flip(f(b, a)) by {
        match (a, b) {
            (Val::Bytes(x), Val::Bytes(y)) => {
                assert(g(x, y) == order::flip(g(y, x)));
            },
            (Val::Text(x), Val::Text(y)) => {
                let p = encode_utf8(x);
                let q = encode_utf8(y);
                assert(g(p, q) == order::flip(g(q, p)));
            },
            _ => {},
        }
    }
    assert forall|a: Val, b: Val, c: Val|
        #![trigger f(a, b), f(b, c)]
        f(a, b) == Order::Less && f(b, c) == Order::Less implies f(a, c) == Order::Less by {
        match (a, b, c) {
            (Val::Bytes(x), Val::Bytes(y), Val::Bytes(z)) => {
                assert(g(x, y) == Order::Less && g(y, z) == Order::Less);
                assert(g(x, z) == Order::Less);
            },
            (Val::Text(x), Val::Text(y), Val::Text(z)) => {
                let p = encode_utf8(x);
                let q = encode_utf8(y);
                let r = encode_utf8(z);
                assert(g(p, q) == Order::Less && g(q, r) == Order::Less);
                assert(g(p, r) == Order::Less);
            },
            _ => {},
        }
    }
}

/// The order of index keys is total.
pub proof fn key_order_is_total()
    ensures
        order::total(order::lex_by(by_val_order())),
{
    val_order_is_total();
    order::lex_is_total(by_val_order());
}

/// The two ways of comparing a pair of keys agree, and only equal keys compare
/// as equal.
pub proof fn key_order_flips(a: Seq<Val>, b: Seq<Val>)
    ensures
        key_order(a, b) == order::flip(key_order(b, a)),
        key_order(a, b) == Order::Equal <==> a == b,
{
    reveal(key_order);
    key_order_is_total();
    let f = order::lex_by(by_val_order());
    assert(f(a, b) == order::flip(f(b, a)));
    assert(f(a, a) == Order::Equal);
}

/// A key before another comes before all that the other comes before.
pub proof fn key_order_transitive(a: Seq<Val>, b: Seq<Val>, c: Seq<Val>)
    requires
        key_order(a, b) == Order::Less,
        key_order(b, c) == Order::Less,
    ensures
        key_order(a, c) == Order::Less,
{
    reveal(key_order);
    key_order_is_total();
    let f = order::lex_by(by_val_order());
    assert(f(a, b) == Order::Less && f(b, c) == Order::Less);
}

impl Value {
    /// The text of the value.
    pub fn to_string(&self, numbers: &Numbers) -> (r: String)
        ensures
            r@ == val_text(numbers@, self@),
    {
        match self {
            Value::Null => "NULL".to_string(),
            Value::Int(n) => text::i64_text(*n),
            Value::UInt(n) => text::u64_text(*n),
            Value::Float(n) => numbers.show_single(*n),
            Value::Double(n) => numbers.show_double(*n),
            Value::Bytes(b) => text::utf8_lossy(b.as_slice()),
            Value::Text(s) => s.clone(),
        }
    }

    fn rank(&self) -> (r: u64)
        ensures
            r == variant_rank(self@),
    {
        match self {
            Value::Null => 0,
            Value::Int(_) => 1,
            Value::UInt(_) => 2,
            Value::Float(_) => 3,
            Value::Double(_) => 4,
            Value::Bytes(_) => 5,
            Value::Text(_) => 6,
        }
    }

    /// Compares two values by the total order.
    pub fn order(&self, other: &Value) -> (r: Order)
        ensures
            r == val_order(self@, other@),
    {
        match (self, other) {
            (Value::Int(x), Value::Int(y)) => order::order_i64(*x, *y),
            (Value::UInt(x), Value::UInt(y)) => order::order_u64(*x, *y),
            (Value::Float(x), Value::Float(y)) => float::order_total(
                *x as u64,
                *y as u64,
                float::SINGLE,
            ),
            (Value::Double(x), Value::Double(y)) => float::order_total(*x, *y, float::DOUBLE),
            (Value::Bytes(x), Value::Bytes(y)) => order::order_bytes(x.as_slice(), y.as_slice()),
            (Value::Text(x), Value::Text(y)) => order::order_bytes(
                x.as_str().as_bytes(),
                y.as_str().as_bytes(),
            ),
            _ => order::order_u64(self.rank(), other.rank()),
        }
    }
}

/// Compares two index keys column by column.
pub fn order_keys(a: &[Value], b: &[Value]) -> (r: Order)
    ensures
        r == key_order(model::views(a@), model::views(b@)),
{
    let ghost x = model::views(a@);
    let ghost y = model::views(b@);
    let mut i: usize = 0;
    while i < a.len() && i < b.len()
        invariant
            x == model::views(a@),
            y == model::views(b@),
            i <= a.len(),
            i <= b.len(),
            forall|j: int| 0 <= j < i ==> val_order(#[trigger] x[j], y[j]) == Order::Equal,
        decreases a.len() - i,
    {
        let o = a[i].order(&b[i]);
        match o {
            Order::Equal => {},
            _ => {
                proof {
                    reveal(key_order);
                    order::lemma_lex_skip(by_val_order(), x, y, i as int);
                    assert(x.skip(i as int)[0] == x[i as int]);
                    assert(y.skip(i as int)[0] == y[i as int]);
                }
                return o;
            },
        }
        i = i + 1;
    }
    proof {
        reveal(key_order);
        order::lemma_lex_skip(by_val_order(), x, y, i as int);
    }
    if a.len() == b.len() {
        Order::Equal
    } else if a.len() < b.len() {
        Order::Less
    } else {
        Order::Greater
    }
}

} // verus!
