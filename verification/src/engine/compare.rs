//! How conditions compare values: numbers across their kinds, numbers with
//! texts, and texts with patterns.

use vstd::prelude::*;
use vstd::utf8::*;

use crate::engine::types;
use crate::engine::types::{Numbers, NumbersV, Val, Value};
use crate::float;
use crate::order;
use crate::order::Order;
use crate::text;

verus! {

/// An integer as the nearest double-precision number.
pub open spec fn int_as_double(n: i64) -> u64 {
    float::of_int(n as int, float::DOUBLE) as u64
}

/// An integer as the nearest single-precision number.
pub open spec fn int_as_single(n: i64) -> u64 {
    float::of_int(n as int, float::SINGLE) as u64
}

pub open spec fn double_order(a: u64, b: u64) -> Option<Order> {
    float::number_order(a, b, float::DOUBLE)
}

pub open spec fn single_order(a: u64, b: u64) -> Option<Order> {
    float::number_order(a, b, float::SINGLE)
}

/// The order of two values in a condition. Numbers compare with numbers, an
/// integer as the nearest number of the other's precision; texts with texts; an
/// integer with a text by its decimal text. Other pairs have no order.
pub open spec fn condition_order(a: Val, b: Val) -> Option<Order> {
    match (a, b) {
        (Val::Int(x), Val::Int(y)) => Some(order::int_order(x as int, y as int)),
        (Val::UInt(x), Val::UInt(y)) => Some(order::int_order(x as int, y as int)),
        (Val::Float(x), Val::Float(y)) => single_order(x as u64, y as u64),
        (Val::Double(x), Val::Double(y)) => double_order(x, y),
        (Val::Int(x), Val::Double(y)) => double_order(int_as_double(x), y),
        (Val::Double(x), Val::Int(y)) => double_order(x, int_as_double(y)),
        (Val::Int(x), Val::Float(y)) => single_order(int_as_single(x), y as u64),
        (Val::Float(x), Val::Int(y)) => single_order(x as u64, int_as_single(y)),
        (Val::Text(x), Val::Text(y)) => Some(text::text_order(x, y)),
        (Val::Int(x), Val::Text(y)) => Some(text::text_order(text::int_text(x as int), y)),
        (Val::Text(x), Val::Int(y)) => Some(text::text_order(x, text::int_text(y as int))),
        _ => None,
    }
}

/// Whether two values are equal in a condition. Numbers of one precision are
/// equal when they are near each other; NULL equals nothing; other pairs of
/// different kinds are equal when their texts are.
pub open spec fn condition_equal(n: NumbersV, a: Val, b: Val) -> bool {
    match (a, b) {
        (Val::Int(x), Val::Int(y)) => x == y,
        (Val::UInt(x), Val::UInt(y)) => x == y,
        (Val::Float(x), Val::Float(y)) => float::near(x as u64, y as u64, float::SINGLE),
        (Val::Double(x), Val::Double(y)) => float::near(x, y, float::DOUBLE),
        (Val::Text(x), Val::Text(y)) => x == y,
        (Val::Text(x), Val::Bytes(y)) => encode_utf8(x) == y,
        (Val::Bytes(x), Val::Text(y)) => x == encode_utf8(y),
        (Val::Int(x), Val::Text(y)) => text::int_text(x as int) == y,
        (Val::Text(x), Val::Int(y)) => x == text::int_text(y as int),
        (Val::Int(x), Val::Float(y)) => single_order(int_as_single(x), y as u64) == Some(
            Order::Equal,
        ),
        (Val::Float(x), Val::Int(y)) => single_order(x as u64, int_as_single(y)) == Some(
            Order::Equal,
        ),
        (Val::Int(x), Val::Double(y)) => float::near(int_as_double(x), y, float::DOUBLE),
        (Val::Double(x), Val::Int(y)) => float::near(x, int_as_double(y), float::DOUBLE),
        (Val::Null, _) => false,
        (_, Val::Null) => false,
        _ => types::val_text(n, a) == types::val_text(n, b),
    }
}

/// The truth value of a value, where it has one.
pub open spec fn truth(v: Val) -> Option<bool> {
    match v {
        Val::Int(n) => Some(n != 0),
        Val::UInt(n) => Some(n != 0),
        Val::Text(s) => Some(s.len() > 0 && s != "0"@),
        _ => None,
    }
}

/// Compares two values as a condition does.
pub fn order_in_condition(a: &Value, b: &Value) -> (r: Option<Order>)
    ensures
        r == condition_order(a@, b@),
{
    match (a, b) {
        (Value::Int(x), Value::Int(y)) => Some(order::order_i64(*x, *y)),
        (Value::UInt(x), Value::UInt(y)) => Some(order::order_u64(*x, *y)),
        (Value::Float(x), Value::Float(y)) => float::order_numbers(
            *x as u64,
            *y as u64,
            float::SINGLE,
        ),
        (Value::Double(x), Value::Double(y)) => float::order_numbers(*x, *y, float::DOUBLE),
        (Value::Int(x), Value::Double(y)) => float::order_numbers(
            float::double_of(*x),
            *y,
            float::DOUBLE,
        ),
        (Value::Double(x), Value::Int(y)) => float::order_numbers(
            *x,
            float::double_of(*y),
            float::DOUBLE,
        ),
        (Value::Int(x), Value::Float(y)) => float::order_numbers(
            float::single_of(*x) as u64,
            *y as u64,
            float::SINGLE,
        ),
        (Value::Float(x), Value::Int(y)) => float::order_numbers(
            *x as u64,
            float::single_of(*y) as u64,
            float::SINGLE,
        ),
        (Value::Text(x), Value::Text(y)) => Some(text::order_texts(x.as_str(), y.as_str())),
        (Value::Int(x), Value::Text(y)) => Some(
            text::order_texts(text::i64_text(*x).as_str(), y.as_str()),
        ),
        (Value::Text(x), Value::Int(y)) => Some(
            text::order_texts(x.as_str(), text::i64_text(*y).as_str()),
        ),
        _ => None,
    }
}

fn is_equal(o: Option<Order>) -> (r: bool)
    ensures
        r == (o == Some(Order::Equal)),
{
    match o {
        Some(Order::Equal) => true,
        _ => false,
    }
}

/// Whether two values are equal as a condition sees them.
pub fn equal_in_condition(numbers: &Numbers, a: &Value, b: &Value) -> (r: bool)
    ensures
        r == condition_equal(numbers@, a@, b@),
{
    match (a, b) {
        (Value::Int(x), Value::Int(y)) => *x == *y,
        (Value::UInt(x), Value::UInt(y)) => *x == *y,
        (Value::Float(x), Value::Float(y)) => float::are_near(
            *x as u64,
            *y as u64,
            float::SINGLE,
        ),
        (Value::Double(x), Value::Double(y)) => float::are_near(*x, *y, float::DOUBLE),
        (Value::Text(x), Value::Text(y)) => text::same_text(x.as_str(), y.as_str()),
        (Value::Text(x), Value::Bytes(y)) => text::same_bytes(
            x.as_str().as_bytes(),
            y.as_slice(),
        ),
        (Value::Bytes(x), Value::Text(y)) => text::same_bytes(
            x.as_slice(),
            y.as_str().as_bytes(),
        ),
        (Value::Int(x), Value::Text(y)) => text::same_text(
            text::i64_text(*x).as_str(),
            y.as_str(),
        ),
        (Value::Text(x), Value::Int(y)) => text::same_text(
            x.as_str(),
            text::i64_text(*y).as_str(),
        ),
        (Value::Int(x), Value::Float(y)) => is_equal(
            float::order_numbers(float::single_of(*x) as u64, *y as u64, float::SINGLE),
        ),
        (Value::Float(x), Value::Int(y)) => is_equal(
            float::order_numbers(*x as u64, float::single_of(*y) as u64, float::SINGLE),
        ),
        (Value::Int(x), Value::Double(y)) => float::are_near(
            float::double_of(*x),
            *y,
            float::DOUBLE,
        ),
        (Value::Double(x), Value::Int(y)) => float::are_near(
            *x,
            float::double_of(*y),
            float::DOUBLE,
        ),
        (Value::Null, _) => false,
        (_, Value::Null) => false,
        _ => text::same_text(a.to_string(numbers).as_str(), b.to_string(numbers).as_str()),
    }
}

/// The truth value of a value, where it has one.
pub fn as_bool(v: &Value) -> (r: Option<bool>)
    ensures
        r == truth(v@),
{
    match v {
        Value::Int(n) => Some(*n != 0),
        Value::UInt(n) => Some(*n != 0),
        Value::Text(s) => Some(!s.as_str().is_empty() && !text::same_text(s.as_str(), "0")),
        _ => None,
    }
}

// ---------------------------------------------------------------------------
// Patterns
// ---------------------------------------------------------------------------

pub const PERCENT: u8 = 37;

pub const UNDERSCORE: u8 = 95;

/// The bytes match the pattern: `_` stands for one byte and `%` for any run of bytes,
/// which may be empty.
pub open spec fn matches_pattern(t: Seq<u8>, p: Seq<u8>) -> bool
    decreases p.len() + t.len(),
{
    if p.len() == 0 {
        t.len() == 0
    } else if p[0] == PERCENT {
        matches_pattern(t, p.drop_first()) || (t.len() > 0 && matches_pattern(t.drop_first(), p))
    } else {
        t.len() > 0 && (p[0] == UNDERSCORE || p[0] == t[0]) && matches_pattern(
            t.drop_first(),
            p.drop_first(),
        )
    }
}

/// A text matches a pattern, both taken in upper case.
pub open spec fn like(a: Val, b: Val) -> bool {
    match (a, b) {
        (Val::Text(t), Val::Text(p)) => matches_pattern(
            encode_utf8(text::uppercase(t)),
            encode_utf8(text::uppercase(p)),
        ),
        _ => false,
    }
}

fn match_from(t: &[u8], p: &[u8], from: usize, start: usize) -> (r: bool)
    requires
        from <= t.len(),
        start <= p.len(),
    ensures
        r == matches_pattern(t@.skip(from as int), p@.skip(start as int)),
    decreases p.len() - start,
{
    let ghost u = t@.skip(from as int);
    let ghost q = p@.skip(start as int);
    if start == p.len() {
        return from == t.len();
    }
    assert(q[0] == p@[start as int]);
    assert(q.drop_first() =~= p@.skip(start + 1));
    if p[start] == PERCENT {
        let mut i: usize = from;
        while i < t.len()
            invariant
                from <= i <= t.len(),
                start < p.len(),
                u == t@.skip(from as int),
                q == p@.skip(start as int),
                q[0] == PERCENT,
                q.drop_first() == p@.skip(start + 1),
                matches_pattern(u, q) == matches_pattern(t@.skip(i as int), q),
            decreases t.len() - i,
        {
            if match_from(t, p, i, start + 1) {
                return true;
            }
            assert(t@.skip(i as int).drop_first() =~= t@.skip(i + 1));
            i = i + 1;
        }
        return match_from(t, p, i, start + 1);
    }
    if from == t.len() {
        return false;
    }
    assert(u[0] == t@[from as int]);
    assert(u.drop_first() =~= t@.skip(from + 1));
    if p[start] != UNDERSCORE && p[start] != t[from] {
        return false;
    }
    match_from(t, p, from + 1, start + 1)
}

/// Whether a text matches a pattern, in any case.
pub fn like_match(value: &Value, pattern: &Value) -> (r: bool)
    ensures
        r == like(value@, pattern@),
{
    match (value, pattern) {
        (Value::Text(t), Value::Text(p)) => {
            let upper_text = t.as_str().to_uppercase();
            let upper_pattern = p.as_str().to_uppercase();
            let a = upper_text.as_str().as_bytes();
            let b = upper_pattern.as_str().as_bytes();
            assert(a@.skip(0) =~= a@);
            assert(b@.skip(0) =~= b@);
            match_from(a, b, 0, 0)
        },
        _ => false,
    }
}

} // verus!
