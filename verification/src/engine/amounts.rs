//! What comparisons mean: numbers compare by the amounts that they stand for, texts by
//! their bytes.

use vstd::arithmetic::power2::*;
use vstd::prelude::*;

use crate::engine::compare;
use crate::engine::index;
use crate::engine::types;
use crate::engine::types::{NumbersV, Val};
use crate::float;
use crate::order;
use crate::order::Order;
use crate::text;

verus! {

// ---------------------------------------------------------------------------
// Floating-point numbers
// ---------------------------------------------------------------------------

/// The bits of a double-precision number are a sign, eleven bits of an exponent and 52
/// bits of a fraction. In units of two to the power of -1074, the number is the fraction,
/// with a bit in front of it unless the exponent is zero, times a power of two.
pub proof fn double_stands_for(bits: u64)
    ensures
        ({
            let sign = bits as int / 0x8000_0000_0000_0000;
            let e = (bits as int / 0x10_0000_0000_0000) % 2048;
            let f = bits as int % 0x10_0000_0000_0000;
            let size = if e == 0 {
                f
            } else {
                (f + 0x10_0000_0000_0000) * pow2((e - 1) as nat)
            };
            &&& float::is_finite(bits, float::DOUBLE) <==> e != 2047
            &&& float::is_nan(bits, float::DOUBLE) <==> e == 2047 && f != 0
            &&& float::value(bits, float::DOUBLE) == (if sign == 1 {
                -size
            } else {
                size
            })
        }),
{
    lemma2_to64();
    let b = bits as int;
    let m = float::magnitude(bits, float::DOUBLE);
    assert(m / 0x10_0000_0000_0000 == (b / 0x10_0000_0000_0000) % 2048);
    assert(m % 0x10_0000_0000_0000 == b % 0x10_0000_0000_0000);
    assert(float::fraction(bits, float::DOUBLE) * pow2(0) == float::fraction(bits, float::DOUBLE))
        by (nonlinear_arith)
        requires
            pow2(0) == 1,
    ;
}

/// The bits of a single-precision number are a sign, eight bits of an exponent and 23
/// bits of a fraction. In units of two to the power of -149, the number is the fraction,
/// with a bit in front of it unless the exponent is zero, times a power of two.
pub proof fn single_stands_for(bits: u32)
    ensures
        ({
            let sign = bits as int / 0x8000_0000;
            let e = (bits as int / 0x80_0000) % 256;
            let f = bits as int % 0x80_0000;
            let size = if e == 0 {
                f
            } else {
                (f + 0x80_0000) * pow2((e - 1) as nat)
            };
            &&& float::is_finite(bits as u64, float::SINGLE) <==> e != 255
            &&& float::is_nan(bits as u64, float::SINGLE) <==> e == 255 && f != 0
            &&& float::value(bits as u64, float::SINGLE) == (if sign == 1 {
                -size
            } else {
                size
            })
        }),
{
    lemma2_to64();
    let b = bits as int;
    let m = float::magnitude(bits as u64, float::SINGLE);
    assert(m / 0x80_0000 == (b / 0x80_0000) % 256);
    assert(m % 0x80_0000 == b % 0x80_0000);
    assert(float::fraction(bits as u64, float::SINGLE) * pow2(0) == float::fraction(
        bits as u64,
        float::SINGLE,
    )) by (nonlinear_arith)
        requires
            pow2(0) == 1,
    ;
}

// ---------------------------------------------------------------------------
// Amounts
// ---------------------------------------------------------------------------

/// The amount that a number stands for, in units of two to the power of -1074, where it
/// has one that both kinds of numbers can have: an integer of at most 53 bits, or a
/// finite double-precision number.
pub open spec fn amount(v: Val) -> Option<int> {
    match v {
        Val::Int(k) => if -0x20_0000_0000_0000 < k < 0x20_0000_0000_0000 {
            Some(k * pow2(1074))
        } else {
            None
        },
        Val::Double(bits) => if float::is_finite(bits, float::DOUBLE) {
            Some(float::value(bits, float::DOUBLE))
        } else {
            None
        },
        _ => None,
    }
}

/// How far apart, in the same units, two amounts are that do not count as equal: from
/// there on their difference rounds to two to the power of -52.
pub open spec fn tolerance() -> int {
    pow2(1022) - pow2(968)
}

proof fn lemma_tolerance()
    ensures
        0 < tolerance() < pow2(1074),
        tolerance() == float::nearness(float::DOUBLE),
{
    lemma_pow2_strictly_increases(968, 1022);
    lemma_pow2_strictly_increases(1022, 1074);
    lemma_pow2_pos(968);
}

proof fn lemma_integer_amount(k: i64)
    requires
        -0x20_0000_0000_0000 < k < 0x20_0000_0000_0000,
    ensures
        float::is_finite(compare::int_as_double(k), float::DOUBLE),
        float::value(compare::int_as_double(k), float::DOUBLE) == k * pow2(1074),
{
    let m = float::DOUBLE;
    let n = (if k < 0 {
        -k
    } else {
        k as int
    }) as nat;
    float::small_integers_are_exact(n, m);
    if k < 0 {
        let plain = float::of_nat(n, m) as u64;
        let bits = compare::int_as_double(k);
        assert(bits == plain + 0x8000_0000_0000_0000);
        assert(float::magnitude(bits, m) == float::magnitude(plain, m));
        assert(-(n * pow2(1074)) == k * pow2(1074)) by (nonlinear_arith)
            requires
                n == -k,
        ;
    }
}

proof fn lemma_multiples(j: int, k: int, u: int)
    requires
        u > 0,
    ensures
        j < k <==> j * u < k * u,
        j == k <==> j * u == k * u,
        j < k ==> k * u - j * u >= u,
{
    assert(j < k ==> k * u - j * u >= u) by (nonlinear_arith)
        requires
            u > 0,
    ;
    assert(k < j ==> j * u - k * u >= u) by (nonlinear_arith)
        requires
            u > 0,
    ;
}

/// Two numbers are equal in a condition where their amounts are less than the tolerance
/// apart, and their order is that of the amounts, whatever kinds they are of.
pub proof fn numbers_compare_by_amount(n: NumbersV, a: Val, b: Val)
    requires
        amount(a) is Some,
        amount(b) is Some,
    ensures
        compare::condition_equal(n, a, b) <==> -tolerance() < amount(a)->0 - amount(b)->0
            < tolerance(),
        compare::condition_order(a, b) == Some(
            if amount(a)->0 < amount(b)->0 {
                Order::Less
            } else if amount(a)->0 == amount(b)->0 {
                Order::Equal
            } else {
                Order::Greater
            },
        ),
{
    lemma_tolerance();
    if let Val::Int(j) = a {
        lemma_integer_amount(j);
    }
    if let Val::Int(k) = b {
        lemma_integer_amount(k);
    }
    match (a, b) {
        (Val::Int(j), Val::Int(k)) => {
            lemma_multiples(j as int, k as int, pow2(1074) as int);
            lemma_multiples(k as int, j as int, pow2(1074) as int);
        },
        (Val::Int(j), Val::Double(y)) => {
            float::order_is_by_value(compare::int_as_double(j), y, float::DOUBLE);
        },
        (Val::Double(x), Val::Int(k)) => {
            float::order_is_by_value(x, compare::int_as_double(k), float::DOUBLE);
        },
        (Val::Double(x), Val::Double(y)) => {
            float::order_is_by_value(x, y, float::DOUBLE);
        },
        _ => {},
    }
}

/// A number with a whole amount equals the integer of that amount and no other, on
/// either side of a condition.
pub proof fn whole_numbers_equal_integers(n: NumbersV, bits: u64, j: i64, k: i64)
    requires
        float::is_finite(bits, float::DOUBLE),
        float::value(bits, float::DOUBLE) == j * pow2(1074),
        -0x20_0000_0000_0000 < j < 0x20_0000_0000_0000,
        -0x20_0000_0000_0000 < k < 0x20_0000_0000_0000,
    ensures
        compare::condition_equal(n, Val::Double(bits), Val::Int(k)) <==> j == k,
        compare::condition_equal(n, Val::Int(k), Val::Double(bits)) <==> j == k,
{
    numbers_compare_by_amount(n, Val::Double(bits), Val::Int(k));
    numbers_compare_by_amount(n, Val::Int(k), Val::Double(bits));
    lemma_tolerance();
    lemma_multiples(j as int, k as int, pow2(1074) as int);
    lemma_multiples(k as int, j as int, pow2(1074) as int);
}

/// Equality in a condition does not depend on the sides.
pub proof fn equality_is_symmetric(n: NumbersV, a: Val, b: Val)
    ensures
        compare::condition_equal(n, a, b) == compare::condition_equal(n, b, a),
{
}

/// The order of two values turns round with their sides.
pub proof fn order_turns_with_sides(a: Val, b: Val)
    ensures
        match (compare::condition_order(a, b), compare::condition_order(b, a)) {
            (Some(p), Some(q)) => p == order::flip(q),
            (None, None) => true,
            _ => false,
        },
{
    match (a, b) {
        (Val::Text(x), Val::Text(y)) => {
            text::text_order_flips(x, y);
        },
        (Val::Int(x), Val::Text(y)) => {
            text::text_order_flips(text::int_text(x as int), y);
        },
        (Val::Text(x), Val::Int(y)) => {
            text::text_order_flips(x, text::int_text(y as int));
        },
        _ => {},
    }
}

/// What is not a number equals nothing and has no order with a number.
pub proof fn not_a_number_compares_with_no_number(n: NumbersV, bits: u64, v: Val)
    requires
        float::is_nan(bits, float::DOUBLE),
        v is Int || v is Double,
    ensures
        !compare::condition_equal(n, Val::Double(bits), v),
        !compare::condition_equal(n, v, Val::Double(bits)),
        compare::condition_order(Val::Double(bits), v) is None,
        compare::condition_order(v, Val::Double(bits)) is None,
{
}

/// Integers of any size compare by what they are.
pub proof fn integers_compare(n: NumbersV, j: i64, k: i64, p: u64, q: u64)
    ensures
        compare::condition_equal(n, Val::Int(j), Val::Int(k)) <==> j == k,
        compare::condition_order(Val::Int(j), Val::Int(k)) == Some(Order::Less) <==> j < k,
        compare::condition_order(Val::Int(j), Val::Int(k)) == Some(Order::Equal) <==> j == k,
        compare::condition_order(Val::Int(j), Val::Int(k)) == Some(Order::Greater) <==> j > k,
        compare::condition_equal(n, Val::UInt(p), Val::UInt(q)) <==> p == q,
        compare::condition_order(Val::UInt(p), Val::UInt(q)) == Some(Order::Less) <==> p < q,
        compare::condition_order(Val::UInt(p), Val::UInt(q)) == Some(Order::Equal) <==> p == q,
        compare::condition_order(Val::UInt(p), Val::UInt(q)) == Some(Order::Greater) <==> p > q,
        compare::condition_equal(n, Val::Int(j), Val::UInt(q)) <==> j == q,
{
    text::integer_texts_differ(j as int, q as int);
}

/// An integer of any size compares with a double-precision number as the one nearest to
/// it, of two as near as each other the one whose last bit is zero.
pub proof fn integers_compare_as_the_nearest(n: NumbersV, k: i64, bits: u64, other: u64)
    requires
        float::is_finite(bits, float::DOUBLE),
        float::is_finite(other, float::DOUBLE),
    ensures
        ({
            let near = compare::int_as_double(k);
            let exact = k * pow2(1074);
            let gap = float::distance(float::value(near, float::DOUBLE), exact);
            let other_gap = float::distance(float::value(other, float::DOUBLE), exact);
            let a = float::value(bits, float::DOUBLE);
            let b = float::value(near, float::DOUBLE);
            &&& float::is_finite(near, float::DOUBLE)
            &&& gap <= other_gap
            &&& gap == other_gap && float::value(other, float::DOUBLE) != b ==> near % 2 == 0
            &&& compare::condition_equal(n, Val::Double(bits), Val::Int(k)) <==> float::distance(
                a,
                b,
            ) < tolerance()
            &&& compare::condition_order(Val::Double(bits), Val::Int(k)) == Some(
                if a < b {
                    Order::Less
                } else if a == b {
                    Order::Equal
                } else {
                    Order::Greater
                },
            )
        }),
{
    lemma_tolerance();
    let m = float::DOUBLE;
    let near = compare::int_as_double(k);
    if k < 0 {
        let size = (-k) as nat;
        let plain = float::of_nat(size, m) as u64;
        let opposite = float::negated(other);
        assert(float::magnitude(opposite, m) == float::magnitude(other, m));
        assert(float::value(opposite, m) == -float::value(other, m));
        float::integers_become_the_nearest(size, m, opposite);
        assert(near == plain + 0x8000_0000_0000_0000);
        assert(float::magnitude(near, m) == float::magnitude(plain, m));
        assert(float::value(near, m) == -float::value(plain, m));
        assert(size * pow2(1074) == -(k * pow2(1074))) by (nonlinear_arith)
            requires
                size == -k,
        ;
    } else {
        float::integers_become_the_nearest(k as nat, m, other);
    }
    float::order_is_by_value(bits, near, m);
}

/// How far apart, in units of two to the power of -149, two single-precision numbers are
/// that do not count as equal: from there on their difference rounds to two to the power
/// of -23.
pub open spec fn single_tolerance() -> int {
    pow2(126) - pow2(101)
}

/// Single-precision numbers are equal in a condition where they are less than the
/// tolerance apart, and their order is that of what they stand for. One equals an integer
/// of at most 24 bits where it stands for just that.
pub proof fn single_numbers_compare(n: NumbersV, a: u32, b: u32, k: i64)
    requires
        float::is_finite(a as u64, float::SINGLE),
        float::is_finite(b as u64, float::SINGLE),
        -0x100_0000 < k < 0x100_0000,
    ensures
        ({
            let x = float::value(a as u64, float::SINGLE);
            let y = float::value(b as u64, float::SINGLE);
            &&& compare::condition_equal(n, Val::Float(a), Val::Float(b)) <==> float::distance(
                x,
                y,
            ) < single_tolerance()
            &&& compare::condition_order(Val::Float(a), Val::Float(b)) == Some(
                order::int_order(x, y),
            )
            &&& compare::condition_equal(n, Val::Float(a), Val::Int(k)) <==> x == k * pow2(149)
            &&& compare::condition_order(Val::Float(a), Val::Int(k)) == Some(
                order::int_order(x, k * pow2(149)),
            )
        }),
{
    let m = float::SINGLE;
    float::order_is_by_value(a as u64, b as u64, m);
    let size = (if k < 0 {
        -k
    } else {
        k as int
    }) as nat;
    float::small_integers_are_exact(size, m);
    let bits = compare::int_as_single(k);
    if k < 0 {
        let plain = float::of_nat(size, m) as u64;
        assert(bits == plain + 0x8000_0000);
        assert(float::magnitude(bits, m) == float::magnitude(plain, m));
        assert(-(size * pow2(149)) == k * pow2(149)) by (nonlinear_arith)
            requires
                size == -k,
        ;
    }
    float::order_is_by_value(a as u64, bits, m);
}

/// Texts are equal in a condition where they are the same, and their order is that of
/// the first byte in which they differ. An integer compares with a text by its decimal
/// text, which is read as that integer.
pub proof fn texts_compare_by_bytes(n: NumbersV, a: Seq<char>, b: Seq<char>, k: i64)
    ensures
        compare::condition_equal(n, Val::Text(a), Val::Text(b)) <==> a == b,
        compare::condition_order(Val::Text(a), Val::Text(b)) is Some,
        compare::condition_order(Val::Text(a), Val::Text(b)) == Some(Order::Less)
            <==> order::come_before(vstd::utf8::encode_utf8(a), vstd::utf8::encode_utf8(b)),
        compare::condition_order(Val::Text(a), Val::Text(b)) == Some(Order::Equal) <==> a == b,
        compare::condition_order(Val::Text(a), Val::Text(b)) == Some(Order::Greater)
            <==> order::come_before(vstd::utf8::encode_utf8(b), vstd::utf8::encode_utf8(a)),
        compare::condition_equal(n, Val::Int(k), Val::Text(b)) ==> text::number_of(b) == Some(
            k as int,
        ),
        compare::condition_equal(n, Val::Int(k), Val::Text(text::int_text(k as int))),
        compare::condition_order(Val::Int(k), Val::Text(b)) == compare::condition_order(
            Val::Text(text::int_text(k as int)),
            Val::Text(b),
        ),
        compare::condition_equal(n, Val::Text(a), Val::Bytes(vstd::utf8::encode_utf8(b))) <==> a
            == b,
{
    reveal(text::text_order);
    order::first_difference_decides(vstd::utf8::encode_utf8(a), vstd::utf8::encode_utf8(b));
    text::lemma_encoding_injective(a, b);
    text::integer_reads_back(k as int);
}

/// A number compares for equality with a text by the text that it is shown with.
pub proof fn shown_numbers_equal_texts(n: NumbersV, bits: u64, s: Seq<char>, p: u64)
    requires
        n.doubles.contains_key(bits),
    ensures
        compare::condition_equal(n, Val::Double(bits), Val::Text(s)) <==> n.doubles[bits] == s,
        compare::condition_equal(n, Val::UInt(p), Val::Text(s)) ==> text::number_of(s) == Some(
            p as int,
        ),
        compare::condition_equal(n, Val::UInt(p), Val::Text(text::int_text(p as int))),
{
    text::integer_reads_back(p as int);
}

/// Only numbers, and texts and integers, have an order with each other.
pub proof fn other_kinds_have_no_order(a: Val, b: Val)
    requires
        a is Null || a is Bytes || (a is UInt && !(b is UInt)) || (a is Double && !(b is Double
            || b is Int)) || (a is Float && !(b is Float || b is Int)) || (a is Text && !(b
            is Text || b is Int)),
    ensures
        compare::condition_order(a, b) is None,
        compare::condition_order(b, a) is None,
{
}

/// The number of the other sign stands for the negative amount.
pub proof fn negation_turns_the_sign(bits: u64)
    ensures
        float::is_finite(float::negated(bits), float::DOUBLE) == float::is_finite(
            bits,
            float::DOUBLE,
        ),
        float::value(float::negated(bits), float::DOUBLE) == -float::value(bits, float::DOUBLE),
{
    let m = float::DOUBLE;
    assert(float::magnitude(float::negated(bits), m) == float::magnitude(bits, m));
}

/// A value is shown as its decimal text, which is read as the number, a known
/// floating-point number as the text that is known of it, and a text as it is.
pub proof fn values_are_shown_as_texts(
    n: NumbersV,
    k: i64,
    p: u64,
    bits: u64,
    single: u32,
    s: Seq<char>,
)
    ensures
        text::number_of(types::val_text(n, Val::Int(k))) == Some(k as int),
        types::val_text(n, Val::Int(k)) == text::int_text(k as int),
        text::number_of(types::val_text(n, Val::UInt(p))) == Some(p as int),
        n.doubles.contains_key(bits) ==> types::val_text(n, Val::Double(bits)) == n.doubles[bits],
        n.singles.contains_key(single) ==> types::val_text(n, Val::Float(single))
            == n.singles[single],
        types::val_text(n, Val::Text(s)) == s,
        types::val_text(n, Val::Null) == "NULL"@,
{
    text::integer_reads_back(k as int);
    text::integer_reads_back(p as int);
}

// ---------------------------------------------------------------------------
// Keys of indexes
// ---------------------------------------------------------------------------

/// Keys of an index are in the order of their first different values: integers by size,
/// finite floating-point numbers of different amounts by their amount, texts by their
/// first different byte, and values of different kinds by kind, with NULL first, then
/// integers, floating-point numbers and texts.
pub proof fn keys_stand_by_kind_and_value(
    j: i64,
    k: i64,
    x: u64,
    y: u64,
    s: Seq<char>,
    u: Seq<char>,
    rest: Seq<Val>,
    more: Seq<Val>,
)
    requires
        float::is_finite(x, float::DOUBLE),
        float::is_finite(y, float::DOUBLE),
    ensures
        types::key_order(seq![Val::Int(j)] + rest, seq![Val::Int(k)] + more) == (if j < k {
            Order::Less
        } else if j > k {
            Order::Greater
        } else {
            types::key_order(rest, more)
        }),
        float::value(x, float::DOUBLE) < float::value(y, float::DOUBLE) ==> types::key_order(
            seq![Val::Double(x)] + rest,
            seq![Val::Double(y)] + more,
        ) == Order::Less,
        order::come_before(vstd::utf8::encode_utf8(s), vstd::utf8::encode_utf8(u))
            ==> types::key_order(seq![Val::Text(s)] + rest, seq![Val::Text(u)] + more)
            == Order::Less,
        types::key_order(seq![Val::Text(s)] + rest, seq![Val::Text(s)] + more) == types::key_order(
            rest,
            more,
        ),
        types::key_order(seq![Val::Null] + rest, seq![Val::Int(j)] + more) == Order::Less,
        types::key_order(seq![Val::Int(j)] + rest, seq![Val::Double(x)] + more) == Order::Less,
        types::key_order(seq![Val::Double(x)] + rest, seq![Val::Text(s)] + more) == Order::Less,
        types::key_order(Seq::empty(), seq![Val::Int(j)] + rest) == Order::Less,
{
    reveal(types::key_order);
    types::val_order_is_total();
    let f = types::by_val_order();
    lemma_first_value(Val::Int(j), rest, Val::Int(k), more);
    lemma_first_value(Val::Double(x), rest, Val::Double(y), more);
    lemma_first_value(Val::Text(s), rest, Val::Text(u), more);
    lemma_first_value(Val::Text(s), rest, Val::Text(s), more);
    lemma_first_value(Val::Null, rest, Val::Int(j), more);
    lemma_first_value(Val::Int(j), rest, Val::Double(x), more);
    lemma_first_value(Val::Double(x), rest, Val::Text(s), more);
    order::first_difference_decides(vstd::utf8::encode_utf8(s), vstd::utf8::encode_utf8(u));
    assert(f(Val::Text(s), Val::Text(s)) == Order::Equal);
    float::order_is_by_value(x, y, float::DOUBLE);
}

proof fn lemma_first_value(a: Val, rest: Seq<Val>, b: Val, more: Seq<Val>)
    ensures
        types::key_order(seq![a] + rest, seq![b] + more) == (if types::val_order(a, b)
            != Order::Equal {
            types::val_order(a, b)
        } else {
            types::key_order(rest, more)
        }),
{
    reveal(types::key_order);
    assert((seq![a] + rest).drop_first() =~= rest);
    assert((seq![b] + more).drop_first() =~= more);
}

/// A search in a range of one column finds the integers from the low bound to the high
/// one, both included, and a search without a bound has no end there.
pub proof fn ranges_hold_both_bounds(low: i64, high: i64, k: i64)
    ensures
        index::within(Some(seq![Val::Int(low)]), Some(seq![Val::Int(high)]))(seq![Val::Int(k)])
            <==> low <= k <= high,
        index::within(Some(seq![Val::Int(low)]), None)(seq![Val::Int(k)]) <==> low <= k,
        index::within(None, Some(seq![Val::Int(high)]))(seq![Val::Int(k)]) <==> k <= high,
        index::from_to(seq![Val::Int(low)], seq![Val::Int(high)])(seq![Val::Int(k)]) <==> low <= k
            < high,
{
    let none = Seq::<Val>::empty();
    lemma_single_key(low, k);
    lemma_single_key(k, high);
}

proof fn lemma_single_key(j: i64, k: i64)
    ensures
        types::key_order(seq![Val::Int(j)], seq![Val::Int(k)]) == order::int_order(
            j as int,
            k as int,
        ),
{
    let none = Seq::<Val>::empty();
    lemma_first_value(Val::Int(j), none, Val::Int(k), none);
    assert(seq![Val::Int(j)] + none =~= seq![Val::Int(j)]);
    assert(seq![Val::Int(k)] + none =~= seq![Val::Int(k)]);
    types::key_order_flips(none, none);
}

/// Keys of different kinds are in this order: NULL, integers, integers without a sign,
/// numbers of single precision, numbers of double precision, byte strings, texts. Of one
/// kind, the smaller integer and the byte string that differs downwards come first.
pub proof fn kinds_of_keys_have_an_order(a: Val, b: Val)
    requires
        place_of_kind(a) != place_of_kind(b) || (a is UInt && b is UInt) || (a is Bytes
            && b is Bytes),
    ensures
        types::key_order(seq![a], seq![b]) == Order::Less <==> match (a, b) {
            (Val::UInt(x), Val::UInt(y)) => x < y,
            (Val::Bytes(x), Val::Bytes(y)) => order::come_before(x, y),
            _ => place_of_kind(a) < place_of_kind(b),
        },
{
    let none = Seq::<Val>::empty();
    lemma_first_value(a, none, b, none);
    assert(seq![a] + none =~= seq![a]);
    assert(seq![b] + none =~= seq![b]);
    types::key_order_flips(none, none);
    match (a, b) {
        (Val::Bytes(x), Val::Bytes(y)) => order::first_difference_decides(x, y),
        _ => {},
    }
}

/// The place of the kind of a value among the kinds.
pub open spec fn place_of_kind(v: Val) -> int {
    if v is Null {
        1
    } else if v is Int {
        2
    } else if v is UInt {
        3
    } else if v is Float {
        4
    } else if v is Double {
        5
    } else if v is Bytes {
        6
    } else {
        7
    }
}

/// A search for the keys that start with an integer finds those and no others: the range
/// goes from the integer up to, and without, the next one.
pub proof fn prefix_means_the_same_first_value(n: i64, m: u64, j: i64, l: u64, rest: Seq<Val>)
    requires
        n < i64::MAX,
        m < u64::MAX,
    ensures
        index::from_to(seq![Val::Int(n)], index::raised(seq![Val::Int(n)]))(
            seq![Val::Int(j)] + rest,
        ) <==> j == n,
        index::from_to(seq![Val::UInt(m)], index::raised(seq![Val::UInt(m)]))(
            seq![Val::UInt(l)] + rest,
        ) <==> l == m,
{
    let none = Seq::<Val>::empty();
    lemma_prefix(Val::Int(n), Val::Int((n + 1) as i64), Val::Int(j), rest);
    lemma_prefix(Val::UInt(m), Val::UInt((m + 1) as u64), Val::UInt(l), rest);
    assert(index::raised(seq![Val::Int(n)]) =~= seq![Val::Int((n + 1) as i64)]);
    assert(index::raised(seq![Val::UInt(m)]) =~= seq![Val::UInt((m + 1) as u64)]);
}

proof fn lemma_prefix(low: Val, high: Val, v: Val, rest: Seq<Val>)
    ensures
        index::from_to(seq![low], seq![high])(seq![v] + rest) <==> types::val_order(low, v)
            != Order::Greater && types::val_order(v, high) == Order::Less,
{
    let none = Seq::<Val>::empty();
    lemma_first_value(low, none, v, rest);
    lemma_first_value(v, rest, high, none);
    assert(seq![low] + none =~= seq![low]);
    assert(seq![high] + none =~= seq![high]);
    reveal(types::key_order);
}

} // verus!
