//! Where things stand in the bytes that are kept on disk.

use vstd::prelude::*;
use vstd::utf8::*;

use crate::engine::catalog::{TableDef, TableV};
use crate::engine::codec;
use crate::engine::codec::Coded;
use crate::engine::index::{IndexDef, IndexDefV, IndexType};
use crate::engine::storage::{Row, RowV};
use crate::engine::types::{Column, ColumnType, ColumnV, DefaultExpr, DefaultV, Val, Value};
use crate::engine::wal;
use crate::engine::wal::EntryV;
use crate::le;

verus! {

/// A text stands at a place in bytes: the number of its bytes in eight, and then they.
pub open spec fn text_stands(bytes: Seq<u8>, at: int, s: Seq<char>) -> bool {
    &&& 0 <= at && at + 8 + encode_utf8(s).len() <= bytes.len()
    &&& le::le_value(bytes.subrange(at, at + 8)) == encode_utf8(s).len()
    &&& bytes.subrange(at + 8, at + 8 + encode_utf8(s).len() as int) == encode_utf8(s)
}

/// A number stands at a place in bytes, in as many of them as given.
pub open spec fn number_stands(bytes: Seq<u8>, at: int, width: int, n: int) -> bool {
    &&& 0 <= at && at + width <= bytes.len()
    &&& le::le_value(bytes.subrange(at, at + width)) == n
}

proof fn lemma_number(front: Seq<u8>, n: nat, width: nat, rest: Seq<u8>)
    requires
        n < le::bound(width),
    ensures
        number_stands(front + le::le(n, width) + rest, front.len() as int, width as int, n as int),
{
    le::le_round_trip(n, width);
    assert((front + le::le(n, width) + rest).subrange(
        front.len() as int,
        front.len() + width as int,
    ) =~= le::le(n, width));
}

proof fn lemma_text(front: Seq<u8>, s: Seq<char>, rest: Seq<u8>)
    requires
        encode_utf8(s).len() < le::bound(8),
    ensures
        text_stands(front + String::enc(s) + rest, front.len() as int, s),
        String::enc(s).len() == 8 + encode_utf8(s).len(),
{
    let e = encode_utf8(s);
    let all = front + String::enc(s) + rest;
    le::le_round_trip(e.len(), 8);
    assert(all.subrange(front.len() as int, front.len() + 8int) =~= le::le(e.len(), 8));
    assert(all.subrange(front.len() + 8int, front.len() + 8int + e.len() as int) =~= e);
}

/// A stored value starts with the number of its kind in four bytes. An integer follows
/// in eight, as its remainder where it is negative, and so does a floating-point number
/// by its bits, one of single precision in four; a text follows behind its length.
pub proof fn stored_values_show_their_kind(v: Val)
    requires
        Value::fits(v),
    ensures
        number_stands(
            Value::enc(v),
            0,
            4,
            match v {
                Val::Null => 0,
                Val::Int(_) => 1,
                Val::UInt(_) => 2,
                Val::Float(_) => 3,
                Val::Double(_) => 4,
                Val::Bytes(_) => 5,
                Val::Text(_) => 6,
            },
        ),
        match v {
            Val::Null => Value::enc(v).len() == 4,
            Val::Int(n) => Value::enc(v).len() == 12 && number_stands(
                Value::enc(v),
                4,
                8,
                if n < 0 {
                    n + 0x1_0000_0000_0000_0000
                } else {
                    n as int
                },
            ),
            Val::UInt(n) => Value::enc(v).len() == 12 && number_stands(
                Value::enc(v),
                4,
                8,
                n as int,
            ),
            Val::Float(n) => Value::enc(v).len() == 8 && number_stands(
                Value::enc(v),
                4,
                4,
                n as int,
            ),
            Val::Double(n) => Value::enc(v).len() == 12 && number_stands(
                Value::enc(v),
                4,
                8,
                n as int,
            ),
            Val::Bytes(b) => number_stands(Value::enc(v), 4, 8, b.len() as int),
            Val::Text(s) => text_stands(Value::enc(v), 4, s),
        },
{
    let none = Seq::<u8>::empty();
    le::lemma_bounds();
    let kind: nat = match v {
        Val::Null => 0,
        Val::Int(_) => 1,
        Val::UInt(_) => 2,
        Val::Float(_) => 3,
        Val::Double(_) => 4,
        Val::Bytes(_) => 5,
        Val::Text(_) => 6,
    };
    let front = le::le(kind, 4);
    le::le_round_trip(kind, 4);
    let rest = Value::enc(v).skip(4);
    assert(Value::enc(v) =~= none + front + rest);
    lemma_number(none, kind, 4, rest);
    match v {
        Val::Int(n) => {
            lemma_number(front, codec::unsigned(n), 8, none);
            le::lemma_le_len(codec::unsigned(n), 8);
            assert(Value::enc(v) =~= front + le::le(codec::unsigned(n), 8) + none);
        },
        Val::UInt(n) => {
            lemma_number(front, n as nat, 8, none);
            le::lemma_le_len(n as nat, 8);
            assert(Value::enc(v) =~= front + le::le(n as nat, 8) + none);
        },
        Val::Float(n) => {
            lemma_number(front, n as nat, 4, none);
            le::lemma_le_len(n as nat, 4);
            assert(Value::enc(v) =~= front + le::le(n as nat, 4) + none);
        },
        Val::Double(n) => {
            lemma_number(front, n as nat, 8, none);
            le::lemma_le_len(n as nat, 8);
            assert(Value::enc(v) =~= front + le::le(n as nat, 8) + none);
        },
        Val::Bytes(b) => {
            lemma_number(front, b.len(), 8, codec::enc_items::<u8>(b));
            assert(Value::enc(v) =~= front + le::le(b.len(), 8) + codec::enc_items::<u8>(b));
        },
        Val::Text(s) => {
            lemma_text(front, s, none);
            assert(Value::enc(v) =~= front + String::enc(s) + none);
        },
        Val::Null => {},
    }
}

/// A stored list starts with the number of its items in eight bytes. The items follow one
/// after the other.
pub proof fn stored_lists_count_their_items<T: Coded>(items: Seq<T::V>)
    requires
        items.len() < 0x1_0000_0000_0000_0000,
    ensures
        number_stands(codec::enc_list::<T>(items), 0, 8, items.len() as int),
        items.len() == 0 ==> codec::enc_list::<T>(items).len() == 8,
        items.len() == 1 ==> codec::enc_list::<T>(items).skip(8) == T::enc(items[0]),
        items.len() > 0 ==> codec::enc_list::<T>(items).skip(8) == T::enc(items[0])
            + codec::enc_list::<T>(items.skip(1)).skip(8),
{
    let none = Seq::<u8>::empty();
    le::lemma_bounds();
    lemma_number(none, items.len(), 8, codec::enc_items::<T>(items));
    le::le_round_trip(items.len(), 8);
    assert(codec::enc_list::<T>(items) =~= none + le::le(items.len(), 8) + codec::enc_items::<T>(
        items,
    ));
    assert(codec::enc_list::<T>(items).skip(8) =~= codec::enc_items::<T>(items));
    if items.len() > 0 {
        let rest = items.skip(1);
        assert(rest =~= items.drop_first());
        le::le_round_trip(rest.len(), 8);
        assert(codec::enc_list::<T>(rest).skip(8) =~= codec::enc_items::<T>(rest));
        reveal_with_fuel(codec::enc_items, 3);
    }
}

/// A stored row is its number in eight bytes and then the list of its values.
pub proof fn stored_rows_start_with_their_number(row: RowV)
    ensures
        number_stands(Row::enc(row), 0, 8, row.id as int),
        Row::enc(row).skip(8) == codec::enc_list::<Value>(row.values),
{
    let none = Seq::<u8>::empty();
    le::lemma_bounds();
    lemma_number(none, row.id as nat, 8, codec::enc_list::<Value>(row.values));
    le::lemma_le_len(row.id as nat, 8);
    assert(Row::enc(row) =~= none + le::le(row.id as nat, 8) + codec::enc_list::<Value>(
        row.values,
    ));
    assert(Row::enc(row).skip(8) =~= codec::enc_list::<Value>(row.values));
}

/// The type of a column is stored as its place among the types, in four bytes.
pub proof fn stored_types_are_numbers(t: ColumnType)
    ensures
        ColumnType::enc(t).len() == 4,
        number_stands(
            ColumnType::enc(t),
            0,
            4,
            match t {
                ColumnType::Decimal => 0,
                ColumnType::Tiny => 1,
                ColumnType::Short => 2,
                ColumnType::Long => 3,
                ColumnType::Float => 4,
                ColumnType::Double => 5,
                ColumnType::Null => 6,
                ColumnType::Timestamp => 7,
                ColumnType::LongLong => 8,
                ColumnType::Int24 => 9,
                ColumnType::Date => 10,
                ColumnType::Time => 11,
                ColumnType::DateTime => 12,
                ColumnType::Year => 13,
                ColumnType::VarChar => 14,
                ColumnType::Bit => 15,
                ColumnType::Json => 16,
                ColumnType::NewDecimal => 17,
                ColumnType::Enum => 18,
                ColumnType::SetOf => 19,
                ColumnType::TinyBlob => 20,
                ColumnType::MediumBlob => 21,
                ColumnType::LongBlob => 22,
                ColumnType::Blob => 23,
                ColumnType::VarString => 24,
                ColumnType::String => 25,
                ColumnType::Geometry => 26,
            },
        ),
{
    let none = Seq::<u8>::empty();
    let n = codec::type_index(t) as nat;
    le::lemma_bounds();
    le::lemma_le_len(n, 4);
    lemma_number(none, n, 4, none);
    assert(ColumnType::enc(t) =~= none + le::le(n, 4) + none);
}

/// A stored column is its name, its table, its type, its length, its character set and
/// its flags, followed by single bytes for its decimals, for whether it counts by itself
/// and for whether it has a default.
pub proof fn stored_columns_hold_their_properties(c: ColumnV)
    requires
        Column::fits(c),
    ensures
        ({
            let b = Column::enc(c);
            let at: int = 8 + encode_utf8(c.name).len() as int;
            let behind: int = at + 8 + encode_utf8(c.table).len();
            &&& text_stands(b, 0, c.name)
            &&& text_stands(b, at, c.table)
            &&& b.len() >= behind + 15
            &&& b.subrange(behind, behind + 4) == ColumnType::enc(c.col_type)
            &&& number_stands(b, behind + 4, 4, c.column_length as int)
            &&& number_stands(b, behind + 8, 2, c.charset as int)
            &&& number_stands(b, behind + 10, 2, c.flags as int)
            &&& b[behind + 12] == c.decimals
            &&& b[behind + 13] == (if c.auto_increment {
                1u8
            } else {
                0u8
            })
            &&& b[behind + 14] == (if c.default_expr is Some {
                1u8
            } else {
                0u8
            })
            &&& match c.default_expr {
                None => b.len() == behind + 15,
                Some(d) => b.skip(behind + 15) == DefaultExpr::enc(d),
            }
        }),
{
    let b = Column::enc(c);
    let none = Seq::<u8>::empty();
    let first = String::enc(c.name);
    let second = first + String::enc(c.table);
    let third = second + ColumnType::enc(c.col_type);
    let rest = u8::enc(c.decimals) + bool::enc(c.auto_increment) + codec::enc_default(
        c.default_expr,
    );
    let numbers = le::le(c.column_length as nat, 4) + le::le(c.charset as nat, 2) + le::le(
        c.flags as nat,
        2,
    );
    le::lemma_bounds();
    stored_types_are_numbers(c.col_type);
    assert(b =~= third + numbers + rest);
    lemma_three_numbers(third, c.column_length, c.charset, c.flags, rest);
    lemma_text(none, c.name, String::enc(c.table) + ColumnType::enc(c.col_type) + numbers + rest);
    assert(b =~= none + String::enc(c.name) + (String::enc(c.table) + ColumnType::enc(c.col_type)
        + numbers + rest));
    lemma_text(first, c.table, ColumnType::enc(c.col_type) + numbers + rest);
    assert(b =~= first + String::enc(c.table) + (ColumnType::enc(c.col_type) + numbers + rest));
    assert(b.subrange(second.len() as int, third.len() as int) =~= ColumnType::enc(c.col_type));
    lemma_single_bytes(third + numbers, c);
}

proof fn lemma_three_numbers(front: Seq<u8>, a: u32, b: u16, c: u16, rest: Seq<u8>)
    ensures
        ({
            let numbers = le::le(a as nat, 4) + le::le(b as nat, 2) + le::le(c as nat, 2);
            let all = front + numbers + rest;
            &&& numbers.len() == 8
            &&& number_stands(all, front.len() as int, 4, a as int)
            &&& number_stands(all, front.len() as int + 4, 2, b as int)
            &&& number_stands(all, front.len() as int + 6, 2, c as int)
        }),
{
    let x = le::le(a as nat, 4);
    let y = le::le(b as nat, 2);
    let z = le::le(c as nat, 2);
    let all = front + (x + y + z) + rest;
    le::lemma_bounds();
    le::lemma_le_len(a as nat, 4);
    le::lemma_le_len(b as nat, 2);
    le::lemma_le_len(c as nat, 2);
    lemma_number(front, a as nat, 4, y + z + rest);
    assert(all =~= front + x + (y + z + rest));
    lemma_number(front + x, b as nat, 2, z + rest);
    assert(all =~= front + x + y + (z + rest));
    lemma_number(front + x + y, c as nat, 2, rest);
    assert(all =~= front + x + y + z + rest);
}

proof fn lemma_single_bytes(front: Seq<u8>, c: ColumnV)
    ensures
        ({
            let all = front + (u8::enc(c.decimals) + bool::enc(c.auto_increment)
                + codec::enc_default(c.default_expr));
            let n = front.len() as int;
            &&& all.len() >= n + 3
            &&& all[n] == c.decimals
            &&& all[n + 1] == (if c.auto_increment {
                1u8
            } else {
                0u8
            })
            &&& all[n + 2] == (if c.default_expr is Some {
                1u8
            } else {
                0u8
            })
            &&& match c.default_expr {
                None => all.len() == n + 3,
                Some(d) => all.skip(n + 3) == DefaultExpr::enc(d),
            }
        }),
{
    let all = front + (u8::enc(c.decimals) + bool::enc(c.auto_increment) + codec::enc_default(
        c.default_expr,
    ));
    match c.default_expr {
        None => {},
        Some(d) => {
            assert(all.skip(front.len() as int + 3) =~= DefaultExpr::enc(d));
        },
    }
}

/// A stored default is a choice in four bytes: zero and the value, or one for the time
/// of insertion.
pub proof fn stored_defaults_show_their_kind(d: DefaultV)
    ensures
        match d {
            DefaultV::Value(v) => number_stands(DefaultExpr::enc(d), 0, 4, 0) && DefaultExpr::enc(
                d,
            ).skip(4) == Value::enc(v),
            DefaultV::CurrentTimestamp => number_stands(DefaultExpr::enc(d), 0, 4, 1)
                && DefaultExpr::enc(d).len() == 4,
        },
{
    let none = Seq::<u8>::empty();
    le::lemma_bounds();
    match d {
        DefaultV::Value(v) => {
            le::lemma_le_len(0, 4);
            lemma_number(none, 0, 4, Value::enc(v));
            assert(DefaultExpr::enc(d) =~= none + le::le(0, 4) + Value::enc(v));
            assert(DefaultExpr::enc(d).skip(4) =~= Value::enc(v));
        },
        DefaultV::CurrentTimestamp => {
            le::lemma_le_len(1, 4);
            lemma_number(none, 1, 4, none);
            assert(DefaultExpr::enc(d) =~= none + le::le(1, 4) + none);
        },
    }
}

/// A stored index is its name, its kind in four bytes, its table, its columns, and a byte
/// for whether it must be unique.
pub proof fn stored_indexes_hold_their_properties(d: IndexDefV)
    requires
        IndexDef::fits(d),
    ensures
        ({
            let b = IndexDef::enc(d);
            let at: int = 8 + encode_utf8(d.name).len() as int;
            let behind: int = at + 12 + encode_utf8(d.table_name).len();
            &&& text_stands(b, 0, d.name)
            &&& number_stands(
                b,
                at,
                4,
                match d.index_type {
                    IndexType::BTree => 0,
                    IndexType::Hash => 1,
                },
            )
            &&& text_stands(b, at + 4, d.table_name)
            &&& b.len() > behind
            &&& b.subrange(behind, b.len() - 1) == codec::enc_list::<String>(d.columns)
            &&& b.last() == (if d.unique {
                1u8
            } else {
                0u8
            })
        }),
{
    let b = IndexDef::enc(d);
    let none = Seq::<u8>::empty();
    let first = String::enc(d.name);
    let second = first + IndexType::enc(d.index_type);
    let third = second + String::enc(d.table_name);
    let kind: nat = match d.index_type {
        IndexType::BTree => 0,
        IndexType::Hash => 1,
    };
    le::lemma_bounds();
    le::lemma_le_len(kind, 4);
    lemma_text(none, d.name, b.skip(first.len() as int));
    assert(b =~= none + String::enc(d.name) + b.skip(first.len() as int));
    lemma_number(first, kind, 4, b.skip(second.len() as int));
    assert(b =~= first + le::le(kind, 4) + b.skip(second.len() as int));
    lemma_text(second, d.table_name, b.skip(third.len() as int));
    assert(b =~= second + String::enc(d.table_name) + b.skip(third.len() as int));
    assert(b =~= third + codec::enc_list::<String>(d.columns) + bool::enc(d.unique));
    assert(b.subrange(third.len() as int, b.len() - 1) =~= codec::enc_list::<String>(d.columns));
}

/// A stored table is its name and the list of its columns.
pub proof fn stored_tables_start_with_their_name(t: TableV)
    requires
        TableDef::fits(t),
    ensures
        text_stands(TableDef::enc(t), 0, t.name),
        TableDef::enc(t).skip(8 + encode_utf8(t.name).len() as int) == codec::enc_list::<Column>(
            t.columns,
        ),
{
    let none = Seq::<u8>::empty();
    le::lemma_bounds();
    lemma_text(none, t.name, codec::enc_list::<Column>(t.columns));
    assert(TableDef::enc(t) =~= none + String::enc(t.name) + codec::enc_list::<Column>(t.columns));
    assert(TableDef::enc(t).skip(8 + encode_utf8(t.name).len() as int) =~= codec::enc_list::<
        Column,
    >(t.columns));
}

/// An entry of the log starts with the letters `SD`, its whole length in four bytes and
/// the number of its kind. The name of the table or of the database follows.
pub proof fn log_entries_show_length_and_kind(e: EntryV)
    requires
        wal::entry_fits(e),
    ensures
        ({
            let b = wal::entry_bytes(e);
            &&& b.len() >= 7
            &&& b[0] == 83 && b[1] == 68
            &&& number_stands(b, 2, 4, b.len() as int)
            &&& match e {
                EntryV::CreateTable { table_name, columns } => b[6] == 1 && text_stands(
                    b,
                    7,
                    table_name,
                ),
                EntryV::DropTable { table_name } => b[6] == 2 && text_stands(b, 7, table_name),
                EntryV::InsertRows { table_name, rows } => b[6] == 3 && text_stands(
                    b,
                    7,
                    table_name,
                ),
                EntryV::TableSnapshot { table_name, rows } => b[6] == 4 && text_stands(
                    b,
                    7,
                    table_name,
                ),
                EntryV::CreateIndex { db_name, index_def } => b[6] == 5 && text_stands(
                    b,
                    7,
                    db_name,
                ),
                EntryV::DropIndex { db_name, index_name, table_name } => {
                    &&& b[6] == 6
                    &&& text_stands(b, 7, db_name)
                    &&& text_stands(b, 15 + encode_utf8(db_name).len() as int, index_name)
                    &&& text_stands(
                        b,
                        23 + encode_utf8(db_name).len() as int + encode_utf8(index_name).len() as int,
                        table_name,
                    )
                },
                EntryV::Checkpoint => b[6] == 255 && b.len() == 7,
            }
        }),
{
    let b = wal::entry_bytes(e);
    let p = wal::entry_payload(e);
    let none = Seq::<u8>::empty();
    let mark = seq![83u8, 68u8];
    let front = mark + le::le(7 + p.len(), 4) + seq![wal::entry_kind(e)];
    le::lemma_bounds();
    le::lemma_le_len(7 + p.len(), 4);
    assert(wal::magic() =~= mark);
    assert(b =~= front + p);
    lemma_number(mark, 7 + p.len(), 4, seq![wal::entry_kind(e)] + p);
    assert(b =~= mark + le::le(7 + p.len(), 4) + (seq![wal::entry_kind(e)] + p));
    match e {
        EntryV::CreateTable { table_name, columns } => lemma_entry_text(front, table_name, p),
        EntryV::DropTable { table_name } => {
            assert(p =~= String::enc(table_name) + none);
            lemma_entry_text(front, table_name, p);
        },
        EntryV::InsertRows { table_name, rows } => lemma_entry_text(front, table_name, p),
        EntryV::TableSnapshot { table_name, rows } => lemma_entry_text(front, table_name, p),
        EntryV::CreateIndex { db_name, index_def } => lemma_entry_text(front, db_name, p),
        EntryV::DropIndex { db_name, index_name, table_name } => {
            let one = String::enc(db_name);
            let two = String::enc(index_name);
            let three = String::enc(table_name);
            le::lemma_le_len(encode_utf8(db_name).len(), 8);
            le::lemma_le_len(encode_utf8(index_name).len(), 8);
            le::lemma_le_len(encode_utf8(table_name).len(), 8);
            lemma_text(front, db_name, two + three);
            assert(b =~= front + one + (two + three));
            lemma_text(front + one, index_name, three);
            assert(b =~= front + one + two + three);
            lemma_text(front + one + two, table_name, none);
            assert(b =~= front + one + two + three + none);
        },
        EntryV::Checkpoint => {},
    }
}

proof fn lemma_entry_text(front: Seq<u8>, s: Seq<char>, p: Seq<u8>)
    requires
        front.len() == 7,
        p.len() < 0x1_0000_0000,
        exists|rest: Seq<u8>| p == #[trigger] (String::enc(s) + rest),
    ensures
        text_stands(front + p, 7, s),
{
    let rest = choose|rest: Seq<u8>| p == #[trigger] (String::enc(s) + rest);
    le::lemma_bounds();
    le::lemma_le_len(encode_utf8(s).len(), 8);
    lemma_text(front, s, rest);
    assert(front + p =~= front + String::enc(s) + rest);
}

} // verus!
