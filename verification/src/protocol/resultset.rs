//! Result sets: the number of columns, the columns, and the rows as texts.

use vstd::prelude::*;
use vstd::utf8::*;

use crate::engine::types;
use crate::engine::types::{Column, ColumnV, Numbers, NumbersV, Val, Value};
use crate::le;
use crate::model;
use crate::protocol::lenenc;
use crate::protocol::lenenc::{lenenc_int_bytes, lenenc_str};

verus! {

broadcast use crate::model::group_views;

/// The bytes of a text behind its length.
pub open spec fn text_bytes(s: Seq<char>) -> Seq<u8> {
    lenenc::lenenc_bytes(encode_utf8(s))
}

/// The names of a column and its table.
pub open spec fn column_names_bytes(c: ColumnV) -> Seq<u8> {
    text_bytes("def"@) + text_bytes(""@) + text_bytes(c.table) + text_bytes(c.table) + text_bytes(
        c.name,
    ) + text_bytes(c.name)
}

/// The bytes of a column: its names, then its properties.
pub open spec fn column_bytes(c: ColumnV) -> Seq<u8> {
    column_names_bytes(c) + seq![0x0Cu8] + le::le(c.charset as nat, 2) + le::le(
        c.column_length as nat,
        4,
    ) + seq![types::type_code(c.col_type)] + le::le(c.flags as nat, 2) + seq![c.decimals, 0u8, 0u8]
}

/// The bytes of a value in a row: a mark for NULL, a byte string as it is, and
/// anything else as its text.
pub open spec fn value_bytes(n: NumbersV, v: Val) -> Seq<u8> {
    match v {
        Val::Null => seq![0xFBu8],
        Val::Bytes(b) => lenenc::lenenc_bytes(b),
        _ => text_bytes(types::val_text(n, v)),
    }
}

/// The bytes of a row: its values, one after the other.
pub open spec fn row_bytes(n: NumbersV, values: Seq<Val>) -> Seq<u8>
    decreases values.len(),
{
    if values.len() == 0 {
        Seq::empty()
    } else {
        row_bytes(n, values.drop_last()) + value_bytes(n, values.last())
    }
}

/// The number of columns of a result set.
pub fn column_count_payload(count: usize) -> (r: Vec<u8>)
    ensures
        r@ == lenenc::lenenc(count as nat),
{
    lenenc_int_bytes(count as u64)
}

fn push_text(out: &mut Vec<u8>, s: &str)
    ensures
        final(out)@ == old(out)@ + text_bytes(s@),
{
    out.extend_from_slice(lenenc_str(s.as_bytes()).as_slice());
    assert(out@ =~= old(out)@ + text_bytes(s@));
}

/// A column of a result set.
pub fn column_definition_payload(column: &Column) -> (r: Vec<u8>)
    ensures
        r@ == column_bytes(column@),
{
    let mut p: Vec<u8> = Vec::new();
    push_text(&mut p, "def");
    push_text(&mut p, "");
    push_text(&mut p, column.table.as_str());
    push_text(&mut p, column.table.as_str());
    push_text(&mut p, column.name.as_str());
    push_text(&mut p, column.name.as_str());
    assert(p@ =~= column_names_bytes(column@));
    p.push(0x0C);
    le::push_le(&mut p, column.charset as u64, 2);
    le::push_le(&mut p, column.column_length as u64, 4);
    p.push(column.col_type.code());
    le::push_le(&mut p, column.flags as u64, 2);
    p.push(column.decimals);
    p.push(0);
    p.push(0);
    assert(p@ =~= column_bytes(column@));
    p
}

/// A row of a result set.
pub fn text_row_payload(values: &[Value], numbers: &Numbers) -> (r: Vec<u8>)
    ensures
        r@ == row_bytes(numbers@, model::views(values@)),
{
    let ghost v = model::views(values@);
    let mut p: Vec<u8> = Vec::new();
    let mut i: usize = 0;
    while i < values.len()
        invariant
            v == model::views(values@),
            i <= values.len(),
            p@ == row_bytes(numbers@, v.take(i as int)),
        decreases values.len() - i,
    {
        let ghost next = v.take(i + 1);
        let ghost before = p@;
        proof {
            assert(next.drop_last() =~= v.take(i as int));
            assert(next.last() == values@[i as int]@);
        }
        match &values[i] {
            Value::Null => {
                p.push(0xFB);
                assert(p@ =~= before + seq![0xFBu8]);
            },
            Value::Bytes(b) => {
                p.extend_from_slice(lenenc_str(b.as_slice()).as_slice());
                assert(p@ =~= before + lenenc::lenenc_bytes(b@));
            },
            _ => {
                push_text(&mut p, values[i].to_string(numbers).as_str());
            },
        }
        i = i + 1;
    }
    assert(v.take(v.len() as int) =~= v);
    p
}

} // verus!
