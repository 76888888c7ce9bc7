//! What holds of conditions.

use vstd::prelude::*;

use crate::engine::amounts;
use crate::engine::compare;
use crate::engine::eval;
use crate::engine::eval::Line;
use crate::engine::types::{NumbersV, Val};
use crate::float;
use crate::model;
use crate::order;
use crate::order::Order;
use crate::sql::ast::{Expression, Literal, Node, Operator};
use crate::text;

verus! {

/// `AND` of two conditions holds where both hold.
pub proof fn and_holds_where_both_hold(line: Line, e: Expression)
    requires
        e.node matches Node::Binary { left, op, right } && op is And && eval::is_condition(*left)
            && eval::is_condition(*right),
    ensures
        e.node matches Node::Binary { left, op, right } && (eval::is_selected(line, Some(e))
            <==> eval::is_selected(line, Some(*left)) && eval::is_selected(line, Some(*right))),
{
}

/// `OR` of two conditions holds where one of them holds and the other can be
/// evaluated.
pub proof fn or_holds_where_one_holds(line: Line, e: Expression)
    requires
        e.node matches Node::Binary { left, op, right } && op is Or && eval::is_condition(*left)
            && eval::is_condition(*right) && eval::condition_holds(line, *left) is Ok
            && eval::condition_holds(line, *right) is Ok,
    ensures
        e.node matches Node::Binary { left, op, right } && (eval::is_selected(line, Some(e))
            <==> eval::is_selected(line, Some(*left)) || eval::is_selected(line, Some(*right))),
{
}

/// NULL equals nothing, not even NULL, and has no order with anything.
pub proof fn null_compares_with_nothing(n: NumbersV, v: Val)
    ensures
        !compare::condition_equal(n, Val::Null, v),
        !compare::condition_equal(n, v, Val::Null),
        compare::condition_order(Val::Null, v) is None,
        compare::condition_order(v, Val::Null) is None,
{
}

/// `BETWEEN` holds where the value is at least the low bound and at most the high
/// one.
pub proof fn between_keeps_both_bounds(n: NumbersV, v: Val, low: Val, high: Val)
    ensures
        eval::between(v, low, high) <==> eval::comparison(n, Operator::GtEq, v, low) == Ok::<
            bool,
            Seq<char>,
        >(true) && eval::comparison(n, Operator::LtEq, v, high) == Ok::<bool, Seq<char>>(true),
{
}

/// `IN` holds where the value equals that of a listed expression.
pub proof fn in_holds_where_one_is_equal(line: Line, e: Expression)
    requires
        e.node matches Node::InList { operand, list, negated } && !negated,
    ensures
        e.node matches Node::InList { operand, list, negated } && (eval::is_selected(line, Some(e))
            <==> exists|i: int|
            0 <= i < list@.len() && eval::operand_value(line, *operand) is Ok
                && eval::operand_value(line, #[trigger] list@[i]) is Ok && eval::comparison(
                line.numbers,
                Operator::Eq,
                eval::operand_value(line, *operand)->Ok_0,
                eval::operand_value(line, list@[i])->Ok_0,
            ) == Ok::<bool, Seq<char>>(true)),
{
    match e.node {
        Node::InList { operand, list, negated } => {
            if let Ok(v) = eval::operand_value(line, *operand) {
                if eval::listed(line, v, list@) {
                    let i = choose|i: int|
                        0 <= i < list@.len() && eval::is_listed_as(line, v, #[trigger] list@[i]);
                    assert(eval::operand_value(line, list@[i]) is Ok);
                }
                if exists|i: int|
                    0 <= i < list@.len() && eval::operand_value(line, #[trigger] list@[i]) is Ok
                        && eval::comparison(
                        line.numbers,
                        Operator::Eq,
                        v,
                        eval::operand_value(line, list@[i])->Ok_0,
                    ) == Ok::<bool, Seq<char>>(true) {
                    let i = choose|i: int|
                        0 <= i < list@.len() && eval::operand_value(line, #[trigger] list@[i])
                            is Ok && eval::comparison(
                            line.numbers,
                            Operator::Eq,
                            v,
                            eval::operand_value(line, list@[i])->Ok_0,
                        ) == Ok::<bool, Seq<char>>(true);
                    assert(eval::is_listed_as(line, v, list@[i]));
                }
            }
        },
        _ => {},
    }
}

/// One condition is the negation of the other: of the same form over the same
/// expressions.
pub open spec fn negates(a: Node, b: Node) -> bool {
    match (a, b) {
        (Node::IsNull(x), Node::IsNotNull(y)) => x == y,
        (
            Node::Like { negated, operand, pattern },
            Node::Like { negated: other, operand: o, pattern: p },
        ) => negated != other && operand == o && pattern == p,
        (
            Node::Between { operand, negated, low, high },
            Node::Between { operand: o, negated: other, low: l, high: h },
        ) => negated != other && operand == o && low == l && high == h,
        (
            Node::InList { operand, list, negated },
            Node::InList { operand: o, list: l, negated: other },
        ) => negated != other && operand == o && list == l,
        (Node::Binary { left, op, right }, Node::Binary { left: l, op: other, right: r }) => op
            is Eq && other is NotEq && left == l && right == r,
        _ => false,
    }
}

/// A condition and its negation are evaluated for the same rows, and hold for
/// different ones.
pub proof fn negation_holds_for_the_others(line: Line, a: Expression, b: Expression)
    requires
        negates(a.node, b.node),
    ensures
        eval::condition_holds(line, a) is Ok <==> eval::condition_holds(line, b) is Ok,
        eval::condition_holds(line, a) is Ok ==> eval::is_selected(line, Some(a))
            != eval::is_selected(line, Some(b)),
{
}

// ---------------------------------------------------------------------------
// Operands
// ---------------------------------------------------------------------------

/// A name stands for the value of the row in the first column of that name, whatever the
/// case of its letters; where there is none, for NULL.
pub proof fn names_stand_for_columns(line: Line, e: Expression, i: int)
    requires
        e.node matches Node::Identifier(name) && (0 <= i < line.columns.len() ==> text::same_name(
            line.columns[i].name,
            name@,
        )) && forall|j: int|
            0 <= j < i ==> !text::same_name((#[trigger] line.columns[j]).name, name@),
        0 <= i <= line.columns.len(),
    ensures
        eval::operand_value(line, e) == Ok::<Val, Seq<char>>(
            if i < line.columns.len() && i < line.values.len() {
                line.values[i]
            } else {
                Val::Null
            },
        ),
{
    if let Node::Identifier(name) = e.node {
        let named = eval::has_name(name@);
        if i < line.columns.len() {
            assert(named(line.columns[i]));
            assert forall|j: int| 0 <= j < i implies !named(#[trigger] line.columns[j]) by {
            }
            model::lemma_first_is(line.columns, named, i);
        } else {
            assert forall|j: int| 0 <= j < line.columns.len() implies !named(
                #[trigger] line.columns[j],
            ) by {
            }
            model::lemma_first_none(line.columns, named);
        }
    }
}

/// A literal stands for what is written: the decimal text of a number for that integer,
/// with a minus sign for the negative one, other digits for the number that is known of
/// them, quotes for the text in them, and NULL for NULL. It does so in conditions and
/// where values are given.
pub proof fn literals_stand_for_themselves(line: Line, e: Expression, k: i64)
    ensures
        match e.node {
            Node::Value(Literal::Text(s)) => eval::operand_value(line, e) == Ok::<Val, Seq<char>>(
                Val::Text(s@),
            ),
            Node::Value(Literal::Null) => eval::operand_value(line, e) == Ok::<Val, Seq<char>>(
                Val::Null,
            ),
            Node::Value(Literal::Number(digits)) => {
                &&& digits@ == text::int_text(k as int) ==> eval::operand_value(line, e) == Ok::<
                    Val,
                    Seq<char>,
                >(Val::Int(k))
                &&& text::number_of(digits@) == Some(k as int) ==> eval::operand_value(line, e)
                    == Ok::<Val, Seq<char>>(Val::Int(k))
                &&& (text::number_of(digits@) matches Some(n) ==> n < i64::MIN || i64::MAX < n)
                    && line.numbers.literals.contains_key(digits@)
                    ==> eval::operand_value(line, e) == Ok::<Val, Seq<char>>(
                    Val::Double(line.numbers.literals[digits@]),
                )
            },
            Node::Negated(x) => match x.node {
                Node::Value(Literal::Number(digits)) => {
                    &&& digits@ == text::int_text(k as int) && 0 <= k ==> eval::operand_value(
                        line,
                        e,
                    ) == Ok::<Val, Seq<char>>(Val::Int((-k) as i64))
                    &&& text::number_of(digits@) is None && line.numbers.literals.contains_key(
                        digits@,
                    ) ==> eval::operand_value(line, e) == Ok::<Val, Seq<char>>(
                        Val::Double(float::negated(line.numbers.literals[digits@])),
                    )
                },
                _ => true,
            },
            _ => true,
        },
        !(e.node is Identifier) ==> eval::operand_value(line, e) == eval::given_value(
            line.numbers,
            e,
        ),
{
    text::integer_reads_back(k as int);
    match e.node {
        Node::Negated(x) => match x.node {
            Node::Value(Literal::Number(digits)) => {
                reveal_strlit("-");
                let signed = "-"@ + digits@;
                assert(signed.drop_first() =~= digits@);
                if digits@ == text::int_text(k as int) && 0 <= k {
                    text::number_reads_back(k as nat);
                }
            },
            _ => {},
        },
        _ => {},
    }
}

// ---------------------------------------------------------------------------
// Comparisons
// ---------------------------------------------------------------------------

/// A condition compares the values of two operands.
pub open spec fn compares(line: Line, e: Expression, o: Operator, a: Val, b: Val) -> bool {
    e.node matches Node::Binary { left, op, right } && op == o && eval::operand_value(line, *left)
        == Ok::<Val, Seq<char>>(a) && eval::operand_value(line, *right) == Ok::<Val, Seq<char>>(b)
}

/// Of two numbers, a row is selected by what the amounts are: equal up to the tolerance,
/// less or greater.
pub proof fn number_comparison_selects(line: Line, e: Expression, o: Operator, a: Val, b: Val)
    requires
        compares(line, e, o, a, b),
        amounts::amount(a) is Some,
        amounts::amount(b) is Some,
    ensures
        ({
            let x = amounts::amount(a)->0;
            let y = amounts::amount(b)->0;
            match o {
                Operator::Eq => eval::is_selected(line, Some(e)) <==> float::distance(x, y)
                    < amounts::tolerance(),
                Operator::NotEq => eval::is_selected(line, Some(e)) <==> float::distance(x, y)
                    >= amounts::tolerance(),
                Operator::Lt => eval::is_selected(line, Some(e)) <==> x < y,
                Operator::LtEq => eval::is_selected(line, Some(e)) <==> x <= y,
                Operator::Gt => eval::is_selected(line, Some(e)) <==> x > y,
                Operator::GtEq => eval::is_selected(line, Some(e)) <==> x >= y,
                _ => true,
            }
        }),
{
    amounts::numbers_compare_by_amount(line.numbers, a, b);
}

/// Of two integers of any size, a row is selected by what they are.
pub proof fn integer_comparison_selects(
    line: Line,
    e: Expression,
    o: Operator,
    x: i64,
    y: i64,
)
    requires
        compares(line, e, o, Val::Int(x), Val::Int(y)),
    ensures
        match o {
            Operator::Eq => eval::is_selected(line, Some(e)) <==> x == y,
            Operator::NotEq => eval::is_selected(line, Some(e)) <==> x != y,
            Operator::Lt => eval::is_selected(line, Some(e)) <==> x < y,
            Operator::LtEq => eval::is_selected(line, Some(e)) <==> x <= y,
            Operator::Gt => eval::is_selected(line, Some(e)) <==> x > y,
            Operator::GtEq => eval::is_selected(line, Some(e)) <==> x >= y,
            _ => true,
        },
{
}

/// Of two texts, a row is selected by whether they are the same, or which comes first by
/// the first byte in which they differ.
pub proof fn text_comparison_selects(
    line: Line,
    e: Expression,
    o: Operator,
    x: Seq<char>,
    y: Seq<char>,
)
    requires
        compares(line, e, o, Val::Text(x), Val::Text(y)),
    ensures
        ({
            let p = vstd::utf8::encode_utf8(x);
            let q = vstd::utf8::encode_utf8(y);
            match o {
                Operator::Eq => eval::is_selected(line, Some(e)) <==> x == y,
                Operator::NotEq => eval::is_selected(line, Some(e)) <==> x != y,
                Operator::Lt => eval::is_selected(line, Some(e)) <==> order::come_before(p, q),
                Operator::LtEq => eval::is_selected(line, Some(e)) <==> x == y
                    || order::come_before(p, q),
                Operator::Gt => eval::is_selected(line, Some(e)) <==> order::come_before(q, p),
                Operator::GtEq => eval::is_selected(line, Some(e)) <==> x == y
                    || order::come_before(q, p),
                _ => true,
            }
        }),
{
    amounts::texts_compare_by_bytes(line.numbers, x, y, 0);
}

/// NULL is neither equal to anything nor less or greater, so that only `<>` selects it.
pub proof fn null_comparison_selects(line: Line, e: Expression, o: Operator, v: Val)
    requires
        compares(line, e, o, Val::Null, v) || compares(line, e, o, v, Val::Null),
        o is Eq || o is NotEq || o is Lt || o is LtEq || o is Gt || o is GtEq,
    ensures
        eval::is_selected(line, Some(e)) <==> o is NotEq,
{
}

/// `IS NULL` holds where the operand is NULL.
pub proof fn is_null_selects_null(line: Line, e: Expression)
    ensures
        e.node matches Node::IsNull(x) ==> (eval::is_selected(line, Some(e))
            <==> eval::operand_value(line, *x) == Ok::<Val, Seq<char>>(Val::Null)),
        e.node matches Node::IsNotNull(x) ==> (eval::is_selected(line, Some(e)) <==> (
        eval::operand_value(line, *x) matches Ok(v) && !(v is Null))),
{
}

/// `BETWEEN` of numbers holds where the amount is at least the low one and at most the
/// high one.
pub proof fn between_selects_amounts(line: Line, e: Expression, v: Val, low: Val, high: Val)
    requires
        e.node matches Node::Between { operand, negated, low: l, high: h } && !negated
            && eval::operand_value(line, *operand) == Ok::<Val, Seq<char>>(v)
            && eval::operand_value(line, *l) == Ok::<Val, Seq<char>>(low) && eval::operand_value(
            line,
            *h,
        ) == Ok::<Val, Seq<char>>(high),
        amounts::amount(v) is Some,
        amounts::amount(low) is Some,
        amounts::amount(high) is Some,
    ensures
        eval::is_selected(line, Some(e)) <==> amounts::amount(low)->0 <= amounts::amount(v)->0
            && amounts::amount(v)->0 <= amounts::amount(high)->0,
{
    amounts::numbers_compare_by_amount(line.numbers, v, low);
    amounts::numbers_compare_by_amount(line.numbers, v, high);
}

/// `BETWEEN` of any values holds where neither `<` of the low one nor `>` of the high one
/// does, and the value has an order with both.
pub proof fn between_selects_values(line: Line, e: Expression, v: Val, low: Val, high: Val)
    requires
        e.node matches Node::Between { operand, negated, low: l, high: h } && !negated
            && eval::operand_value(line, *operand) == Ok::<Val, Seq<char>>(v)
            && eval::operand_value(line, *l) == Ok::<Val, Seq<char>>(low) && eval::operand_value(
            line,
            *h,
        ) == Ok::<Val, Seq<char>>(high),
    ensures
        eval::is_selected(line, Some(e)) <==> (compare::condition_order(low, v) == Some(Order::Less)
            || compare::condition_order(low, v) == Some(Order::Equal)) && (
        compare::condition_order(v, high) == Some(Order::Less) || compare::condition_order(v, high)
            == Some(Order::Equal)),
{
    amounts::order_turns_with_sides(v, low);
}

/// A bare operand holds where it is an integer other than zero, or a text that is
/// neither empty nor `0`.
pub proof fn bare_operand_selects(line: Line, e: Expression)
    requires
        e.node is Identifier || e.node is Value || e.node is Negated,
    ensures
        eval::is_selected(line, Some(e)) <==> match eval::operand_value(line, e) {
            Ok(Val::Int(k)) => k != 0,
            Ok(Val::UInt(k)) => k != 0,
            Ok(Val::Text(s)) => s != Seq::<char>::empty() && s != seq!['0'],
            _ => false,
        },
{
    reveal_strlit("0");
    assert("0"@ =~= seq!['0']);
    if let Ok(Val::Text(s)) = eval::operand_value(line, e) {
        if s.len() == 0 {
            assert(s =~= Seq::<char>::empty());
        }
    }
}

/// Without a condition every row is selected.
pub proof fn no_condition_selects_all(line: Line)
    ensures
        eval::is_selected(line, None),
{
}

// ---------------------------------------------------------------------------
// Patterns
// ---------------------------------------------------------------------------

/// `LIKE` holds where the text matches the pattern, both in upper case and by bytes, and
/// where one of them is no text it does not.
pub proof fn like_selects_matching_texts(line: Line, e: Expression, v: Val, p: Val)
    requires
        e.node matches Node::Like { negated, operand, pattern } && !negated && eval::operand_value(
            line,
            *operand,
        ) == Ok::<Val, Seq<char>>(v) && eval::operand_value(line, *pattern) == Ok::<
            Val,
            Seq<char>,
        >(p),
    ensures
        eval::is_selected(line, Some(e)) <==> v is Text && p is Text && compare::matches_pattern(
            vstd::utf8::encode_utf8(text::uppercase(v->Text_0)),
            vstd::utf8::encode_utf8(text::uppercase(p->Text_0)),
        ),
{
}

/// What a pattern matches, by its first byte: nothing but the empty text where it is
/// empty; any run where it is `%` (37), any byte where it is `_` (95), and else that byte;
/// and behind that what the rest of the pattern matches.
pub proof fn patterns_match_byte_by_byte(t: Seq<u8>, c: u8, p: Seq<u8>)
    ensures
        compare::matches_pattern(t, Seq::empty()) <==> t == Seq::<u8>::empty(),
        compare::matches_pattern(t, seq![c] + p) <==> if c == 37 {
            exists|i: int|
                0 <= i <= t.len() && compare::matches_pattern(#[trigger] t.skip(i), p)
        } else {
            t.len() > 0 && (c == 95 || c == t[0]) && compare::matches_pattern(t.skip(1), p)
        },
{
    if t.len() == 0 {
        assert(t =~= Seq::<u8>::empty());
    }
    assert((seq![c] + p).drop_first() =~= p);
    if t.len() > 0 {
        assert(t.drop_first() =~= t.skip(1));
    }
    percent_stands_for_a_run(t, p);
}

/// The pattern has no wildcard.
pub open spec fn is_plain(p: Seq<u8>) -> bool {
    forall|i: int|
        0 <= i < p.len() ==> #[trigger] p[i] != compare::PERCENT && p[i] != compare::UNDERSCORE
}

/// `LIKE` does not tell texts, or patterns, that are the same in upper case.
pub proof fn like_ignores_case(
    a: Seq<char>,
    b: Seq<char>,
    pattern: Seq<char>,
    other: Seq<char>,
)
    requires
        text::uppercase(a) == text::uppercase(b),
        text::uppercase(pattern) == text::uppercase(other),
    ensures
        compare::like(Val::Text(a), Val::Text(pattern)) == compare::like(
            Val::Text(b),
            Val::Text(other),
        ),
{
}

/// Without a wildcard, a pattern matches what equals it.
pub proof fn plain_pattern_matches_itself(t: Seq<u8>, p: Seq<u8>)
    requires
        is_plain(p),
    ensures
        compare::matches_pattern(t, p) <==> t == p,
    decreases p.len(),
{
    if p.len() > 0 {
        let rest = p.drop_first();
        assert(p[0] != compare::PERCENT);
        assert forall|i: int| 0 <= i < rest.len() implies #[trigger] rest[i] != compare::PERCENT
            && rest[i] != compare::UNDERSCORE by {
            assert(p[i + 1] != compare::PERCENT);
        }
        if t.len() > 0 {
            plain_pattern_matches_itself(t.drop_first(), rest);
            assert(seq![t[0]] + t.drop_first() =~= t);
            assert(seq![p[0]] + rest =~= p);
        }
    } else {
        assert(t.len() == 0 ==> t =~= p);
    }
}

/// `_` stands for any one byte.
pub proof fn underscore_stands_for_one(t: Seq<u8>, p: Seq<u8>)
    ensures
        compare::matches_pattern(t, seq![compare::UNDERSCORE] + p) <==> t.len() > 0
            && compare::matches_pattern(t.drop_first(), p),
{
    assert((seq![compare::UNDERSCORE] + p).drop_first() =~= p);
}

/// `%` stands for any run of bytes, which may be empty.
pub proof fn percent_stands_for_a_run(t: Seq<u8>, p: Seq<u8>)
    ensures
        compare::matches_pattern(t, seq![compare::PERCENT] + p) <==> exists|i: int|
            0 <= i <= t.len() && compare::matches_pattern(#[trigger] t.skip(i), p),
    decreases t.len(),
{
    let all = seq![compare::PERCENT] + p;
    assert(all.drop_first() =~= p);
    assert(t.skip(0) =~= t);
    if t.len() > 0 {
        let rest = t.drop_first();
        percent_stands_for_a_run(rest, p);
        if compare::matches_pattern(rest, all) {
            let i = choose|i: int|
                0 <= i <= rest.len() && compare::matches_pattern(#[trigger] rest.skip(i), p);
            assert(rest.skip(i) =~= t.skip(i + 1));
        }
        if exists|i: int|
            0 <= i <= t.len() && compare::matches_pattern(#[trigger] t.skip(i), p) {
            let i = choose|i: int|
                0 <= i <= t.len() && compare::matches_pattern(#[trigger] t.skip(i), p);
            if i > 0 {
                assert(rest.skip(i - 1) =~= t.skip(i));
                assert(compare::matches_pattern(rest.skip(i - 1), p));
            }
        }
    } else if exists|i: int|
        0 <= i <= t.len() && compare::matches_pattern(#[trigger] t.skip(i), p) {
        let i = choose|i: int|
            0 <= i <= t.len() && compare::matches_pattern(#[trigger] t.skip(i), p);
        assert(i == 0);
    }
}

/// Several `%` behind each other stand for what one stands for.
pub proof fn percents_are_one(t: Seq<u8>, p: Seq<u8>)
    ensures
        compare::matches_pattern(
            t,
            seq![compare::PERCENT] + (seq![compare::PERCENT] + p),
        ) == compare::matches_pattern(t, seq![compare::PERCENT] + p),
    decreases t.len(),
{
    let one = seq![compare::PERCENT] + p;
    let two = seq![compare::PERCENT] + one;
    assert(two.drop_first() =~= one);
    assert(one.drop_first() =~= p);
    if t.len() > 0 {
        percents_are_one(t.drop_first(), p);
    }
}

} // verus!
