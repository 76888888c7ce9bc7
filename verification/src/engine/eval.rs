//! The value of expressions and the truth of conditions for one row.

use vstd::prelude::*;
use vstd::string::*;

use crate::engine::compare;
use crate::engine::compare::{as_bool, equal_in_condition, like_match, order_in_condition};
use crate::engine::types::{Column, ColumnV, Duplicate, Numbers, NumbersV, Val, Value};
use crate::float;
use crate::model;
use crate::names::NameMap;
use crate::order::Order;
use crate::sql::ast::{Expression, Literal, Node, Operator};
use crate::text;

verus! {

broadcast use crate::model::group_views;

/// The value that a number literal stands for: an integer where it fits, else a
/// floating-point number where it denotes one, else its text.
pub open spec fn number_value(n: NumbersV, digits: Seq<char>) -> Val {
    match text::number_within(digits, i64::MIN as int, i64::MAX as int) {
        Some(i) => Val::Int(i as i64),
        None => if n.literals.contains_key(digits) {
            Val::Double(n.literals[digits])
        } else {
            Val::Text(digits)
        },
    }
}

/// The value that a number literal behind a minus sign stands for.
pub open spec fn negative_value(n: NumbersV, digits: Seq<char>) -> Val {
    match text::number_within("-"@ + digits, i64::MIN as int, i64::MAX as int) {
        Some(i) => Val::Int(i as i64),
        None => if n.literals.contains_key(digits) {
            Val::Double(float::negated(n.literals[digits]))
        } else {
            Val::Text("-"@ + digits)
        },
    }
}

/// The value of a literal. One that is no number, text or NULL stands for the text
/// that shows it.
pub open spec fn literal_value(n: NumbersV, e: Expression) -> Val {
    match constant(n, e) {
        Some(v) => v,
        None => Val::Text(e.text@),
    }
}

/// The value of an expression that has one of its own: a number, with or without a
/// minus sign, a text, or NULL.
pub open spec fn constant(n: NumbersV, e: Expression) -> Option<Val> {
    match e.node {
        Node::Value(Literal::Number(digits)) => Some(number_value(n, digits@)),
        Node::Value(Literal::Text(s)) => Some(Val::Text(s@)),
        Node::Value(Literal::Null) => Some(Val::Null),
        Node::Negated(x) => match x.node {
            Node::Value(Literal::Number(digits)) => Some(negative_value(n, digits@)),
            _ => None,
        },
        _ => None,
    }
}

/// The value that a row or an assignment is given, or why there is none: that of a
/// literal, or of a number behind a minus sign.
pub open spec fn given_value(n: NumbersV, e: Expression) -> Result<Val, Seq<char>> {
    if e.node is Value || constant(n, e) is Some {
        Ok(literal_value(n, e))
    } else {
        Err(cannot_evaluate(e))
    }
}

pub open spec fn has_name(name: Seq<char>) -> spec_fn(ColumnV) -> bool {
    |c: ColumnV| text::same_name(c.name, name)
}

/// The place of the first column of a name.
pub open spec fn column_place(columns: Seq<ColumnV>, name: Seq<char>) -> Option<int> {
    model::first(columns, has_name(name))
}

/// The value of a named column in a row; NULL where the row has none.
pub open spec fn column_value(columns: Seq<ColumnV>, values: Seq<Val>, name: Seq<char>) -> Val {
    match column_place(columns, name) {
        Some(i) => if i < values.len() {
            values[i]
        } else {
            Val::Null
        },
        None => Val::Null,
    }
}

/// A row under its columns.
pub struct Line {
    pub numbers: NumbersV,
    pub columns: Seq<ColumnV>,
    pub values: Seq<Val>,
}

pub open spec fn cannot_evaluate(e: Expression) -> Seq<char> {
    "Cannot evaluate expression: "@ + e.text@
}

/// The value of an operand: a column or a literal.
pub open spec fn operand_value(line: Line, e: Expression) -> Result<Val, Seq<char>> {
    match e.node {
        Node::Identifier(name) => Ok(column_value(line.columns, line.values, name@)),
        _ => given_value(line.numbers, e),
    }
}

/// The expression is a condition: it compares or combines.
pub open spec fn is_condition(e: Expression) -> bool {
    match e.node {
        Node::Binary { .. } => true,
        Node::Like { .. } => true,
        Node::IsNull(_) => true,
        Node::IsNotNull(_) => true,
        Node::Between { .. } => true,
        Node::InList { .. } => true,
        _ => false,
    }
}

/// The truth of a comparison of two values.
pub open spec fn comparison(n: NumbersV, op: Operator, a: Val, b: Val) -> Result<bool, Seq<char>> {
    match op {
        Operator::Eq => Ok(compare::condition_equal(n, a, b)),
        Operator::NotEq => Ok(!compare::condition_equal(n, a, b)),
        Operator::Gt => Ok(compare::condition_order(a, b) == Some(Order::Greater)),
        Operator::GtEq => Ok(
            compare::condition_order(a, b) == Some(Order::Greater) || compare::condition_order(a, b)
                == Some(Order::Equal),
        ),
        Operator::Lt => Ok(compare::condition_order(a, b) == Some(Order::Less)),
        Operator::LtEq => Ok(
            compare::condition_order(a, b) == Some(Order::Less) || compare::condition_order(a, b)
                == Some(Order::Equal),
        ),
        Operator::And => match (compare::truth(a), compare::truth(b)) {
            (Some(x), Some(y)) => Ok(x && y),
            _ => Err("AND needs bool"@),
        },
        Operator::Or => match (compare::truth(a), compare::truth(b)) {
            (Some(x), Some(y)) => Ok(x || y),
            _ => Err("OR needs bool"@),
        },
        Operator::Other(name) => Err("Unsupported operator: "@ + name@),
    }
}

/// Neither bound is passed; a value that has no order with one of them is
/// outside.
pub open spec fn between(v: Val, low: Val, high: Val) -> bool {
    match (compare::condition_order(v, low), compare::condition_order(v, high)) {
        (Some(a), Some(b)) => a != Order::Less && b != Order::Greater,
        _ => false,
    }
}

/// One of the listed expressions has a value, and that equals the given one.
pub open spec fn listed(line: Line, v: Val, list: Seq<Expression>) -> bool {
    exists|i: int| 0 <= i < list.len() && is_listed_as(line, v, #[trigger] list[i])
}

pub open spec fn is_listed_as(line: Line, v: Val, e: Expression) -> bool {
    match operand_value(line, e) {
        Ok(w) => compare::condition_equal(line.numbers, v, w),
        Err(_) => false,
    }
}

pub open spec fn truth_value(b: bool) -> Val {
    if b {
        Val::Int(1)
    } else {
        Val::Int(0)
    }
}

/// The value of a side of `AND` or `OR`: the truth of a condition, or the value
/// of an operand.
pub open spec fn side_value(line: Line, e: Expression) -> Result<Val, Seq<char>>
    decreases e, 1nat,
{
    if is_condition(e) {
        match condition_holds(line, e) {
            Ok(b) => Ok(truth_value(b)),
            Err(m) => Err(m),
        }
    } else {
        operand_value(line, e)
    }
}

/// Whether a condition holds for a row, or why that cannot be told.
pub open spec fn condition_holds(line: Line, e: Expression) -> Result<bool, Seq<char>>
    decreases e, 0nat,
{
    match e.node {
        Node::Binary { left, op, right } => {
            let combines = op is And || op is Or;
            let a = if combines {
                side_value(line, *left)
            } else {
                operand_value(line, *left)
            };
            let b = if combines {
                side_value(line, *right)
            } else {
                operand_value(line, *right)
            };
            match (a, b) {
                (Err(m), _) => Err(m),
                (_, Err(m)) => Err(m),
                (Ok(x), Ok(y)) => comparison(line.numbers, op, x, y),
            }
        },
        Node::Like { negated, operand, pattern } => match (
            operand_value(line, *operand),
            operand_value(line, *pattern),
        ) {
            (Err(m), _) => Err(m),
            (_, Err(m)) => Err(m),
            (Ok(x), Ok(y)) => Ok(compare::like(x, y) != negated),
        },
        Node::IsNull(operand) => match operand_value(line, *operand) {
            Err(m) => Err(m),
            Ok(x) => Ok(x is Null),
        },
        Node::IsNotNull(operand) => match operand_value(line, *operand) {
            Err(m) => Err(m),
            Ok(x) => Ok(!(x is Null)),
        },
        Node::Between { operand, negated, low, high } => match (
            operand_value(line, *operand),
            operand_value(line, *low),
            operand_value(line, *high),
        ) {
            (Err(m), _, _) => Err(m),
            (_, Err(m), _) => Err(m),
            (_, _, Err(m)) => Err(m),
            (Ok(x), Ok(y), Ok(z)) => Ok(between(x, y, z) != negated),
        },
        Node::InList { operand, list, negated } => match operand_value(line, *operand) {
            Err(m) => Err(m),
            Ok(x) => Ok(listed(line, x, list@) != negated),
        },
        _ => match operand_value(line, e) {
            Err(m) => Err(m),
            Ok(x) => Ok(compare::truth(x) == Some(true)),
        },
    }
}

/// A row is selected: the condition holds for it. One of which that cannot be
/// told is not.
pub open spec fn is_selected(line: Line, selection: Option<Expression>) -> bool {
    match selection {
        Some(e) => condition_holds(line, e) == Ok::<bool, Seq<char>>(true),
        None => true,
    }
}

// ---------------------------------------------------------------------------
// Evaluation
// ---------------------------------------------------------------------------

fn value_of_number(numbers: &Numbers, digits: &String) -> (r: Value)
    ensures
        r@ == number_value(numbers@, digits@),
{
    match text::parse_i64(digits.as_str()) {
        Some(i) => Value::Int(i),
        None => match numbers.double_of(digits.as_str()) {
            Some(bits) => Value::Double(bits),
            None => Value::Text(digits.clone()),
        },
    }
}

fn negative_of_number(numbers: &Numbers, digits: &String) -> (r: Value)
    ensures
        r@ == negative_value(numbers@, digits@),
{
    let mut signed = "-".to_string();
    signed.append(digits.as_str());
    match text::parse_i64(signed.as_str()) {
        Some(i) => Value::Int(i),
        None => match numbers.double_of(digits.as_str()) {
            Some(bits) => Value::Double(float::negate(bits)),
            None => Value::Text(signed),
        },
    }
}

/// The value of an expression that has one of its own.
pub fn eval_const_expr(expr: &Expression, numbers: &Numbers) -> (r: Option<Value>)
    ensures
        model::view_opt(r) == constant(numbers@, *expr),
{
    match &expr.node {
        Node::Value(Literal::Number(digits)) => Some(value_of_number(numbers, digits)),
        Node::Value(Literal::Text(s)) => Some(Value::Text(s.clone())),
        Node::Value(Literal::Null) => Some(Value::Null),
        Node::Negated(x) => match &x.node {
            Node::Value(Literal::Number(digits)) => Some(negative_of_number(numbers, digits)),
            _ => None,
        },
        _ => None,
    }
}

/// The value that a row or an assignment is given, or why there is none.
pub fn eval_given(expr: &Expression, numbers: &Numbers) -> (r: Result<Value, String>)
    ensures
        match r {
            Ok(v) => given_value(numbers@, *expr) == Ok::<Val, Seq<char>>(v@),
            Err(e) => given_value(numbers@, *expr) == Err::<Val, Seq<char>>(e@),
        },
{
    match eval_const_expr(expr, numbers) {
        Some(v) => Ok(v),
        None => {
            if let Node::Value(_) = &expr.node {
                return Ok(sql_expr_to_value(expr, numbers));
            }
            let mut message = "Cannot evaluate expression: ".to_string();
            message.append(expr.text.as_str());
            Err(message)
        },
    }
}

/// The value of a literal.
pub fn sql_expr_to_value(expr: &Expression, numbers: &Numbers) -> (r: Value)
    ensures
        r@ == literal_value(numbers@, *expr),
{
    match eval_const_expr(expr, numbers) {
        Some(v) => v,
        None => Value::Text(expr.text.clone()),
    }
}

/// Finds the first column of a name, in any case.
pub fn find_place(columns: &[Column], name: &str) -> (r: Option<usize>)
    ensures
        match r {
            Some(i) => i < columns.len() && column_place(model::views(columns@), name@) == Some(
                i as int,
            ),
            None => column_place(model::views(columns@), name@) is None,
        },
{
    let ghost v = model::views(columns@);
    let ghost p = has_name(name@);
    let mut i: usize = 0;
    while i < columns.len()
        invariant
            v == model::views(columns@),
            p == has_name(name@),
            i <= columns.len(),
            forall|j: int| 0 <= j < i ==> !p(#[trigger] v[j]),
        decreases columns.len() - i,
    {
        if text::equal_ignoring_case(columns[i].name.as_str(), name) {
            proof {
                assert(p(v[i as int]));
                model::lemma_first_is(v, p, i as int);
            }
            return Some(i);
        }
        assert(!p(v[i as int]));
        i = i + 1;
    }
    proof {
        model::lemma_first_none(v, p);
    }
    None
}

/// The value of a named column in a row; NULL where the row has none.
pub fn value_in_column(columns: &[Column], values: &[Value], name: &str) -> (r: Value)
    ensures
        r@ == column_value(model::views(columns@), model::views(values@), name@),
{
    match find_place(columns, name) {
        Some(i) => {
            if i < values.len() {
                values[i].duplicate()
            } else {
                Value::Null
            }
        },
        None => Value::Null,
    }
}

/// The value of an operand: a column or a literal.
pub fn eval_expr(
    expr: &Expression,
    columns: &[Column],
    values: &[Value],
    numbers: &Numbers,
) -> (r: Result<Value, String>)
    ensures
        match r {
            Ok(v) => operand_value(line_of(columns@, values@, numbers@), *expr) == Ok::<
                Val,
                Seq<char>,
            >(v@),
            Err(e) => operand_value(line_of(columns@, values@, numbers@), *expr) == Err::<
                Val,
                Seq<char>,
            >(e@),
        },
{
    match &expr.node {
        Node::Identifier(name) => Ok(value_in_column(columns, values, name.as_str())),
        Node::Value(_) => Ok(sql_expr_to_value(expr, numbers)),
        _ => eval_given(expr, numbers),
    }
}

/// The row that the arguments of an evaluation stand for.
pub open spec fn line_of(columns: Seq<Column>, values: Seq<Value>, numbers: NumbersV) -> Line {
    Line { numbers, columns: model::views(columns), values: model::views(values) }
}

fn compare_values(numbers: &Numbers, op: &Operator, a: &Value, b: &Value) -> (r: Result<
    bool,
    String,
>)
    ensures
        match r {
            Ok(x) => comparison(numbers@, *op, a@, b@) == Ok::<bool, Seq<char>>(x),
            Err(e) => comparison(numbers@, *op, a@, b@) == Err::<bool, Seq<char>>(e@),
        },
{
    match op {
        Operator::Eq => Ok(equal_in_condition(numbers, a, b)),
        Operator::NotEq => Ok(!equal_in_condition(numbers, a, b)),
        Operator::Gt => Ok(
            match order_in_condition(a, b) {
                Some(Order::Greater) => true,
                _ => false,
            },
        ),
        Operator::GtEq => Ok(
            match order_in_condition(a, b) {
                Some(Order::Greater) => true,
                Some(Order::Equal) => true,
                _ => false,
            },
        ),
        Operator::Lt => Ok(
            match order_in_condition(a, b) {
                Some(Order::Less) => true,
                _ => false,
            },
        ),
        Operator::LtEq => Ok(
            match order_in_condition(a, b) {
                Some(Order::Less) => true,
                Some(Order::Equal) => true,
                _ => false,
            },
        ),
        Operator::And => match (as_bool(a), as_bool(b)) {
            (Some(x), Some(y)) => Ok(x && y),
            _ => Err("AND needs bool".to_string()),
        },
        Operator::Or => match (as_bool(a), as_bool(b)) {
            (Some(x), Some(y)) => Ok(x || y),
            _ => Err("OR needs bool".to_string()),
        },
        Operator::Other(name) => {
            let mut message = "Unsupported operator: ".to_string();
            message.append(name.as_str());
            Err(message)
        },
    }
}

fn value_between(v: &Value, low: &Value, high: &Value) -> (r: bool)
    ensures
        r == between(v@, low@, high@),
{
    match (order_in_condition(v, low), order_in_condition(v, high)) {
        (Some(a), Some(b)) => a != Order::Less && b != Order::Greater,
        _ => false,
    }
}

fn value_listed(
    v: &Value,
    list: &Vec<Expression>,
    columns: &[Column],
    values: &[Value],
    numbers: &Numbers,
) -> (r: bool)
    ensures
        r == listed(line_of(columns@, values@, numbers@), v@, list@),
{
    let ghost line = line_of(columns@, values@, numbers@);
    let mut i: usize = 0;
    while i < list.len()
        invariant
            line == line_of(columns@, values@, numbers@),
            i <= list.len(),
            forall|j: int| 0 <= j < i ==> !is_listed_as(line, v@, #[trigger] list@[j]),
        decreases list.len() - i,
    {
        if let Ok(w) = eval_expr(&list[i], columns, values, numbers) {
            if equal_in_condition(numbers, v, &w) {
                assert(is_listed_as(line, v@, list@[i as int]));
                return true;
            }
        }
        i = i + 1;
    }
    false
}

fn is_a_condition(expr: &Expression) -> (r: bool)
    ensures
        r == is_condition(*expr),
{
    match &expr.node {
        Node::Binary { .. } => true,
        Node::Like { .. } => true,
        Node::IsNull(_) => true,
        Node::IsNotNull(_) => true,
        Node::Between { .. } => true,
        Node::InList { .. } => true,
        _ => false,
    }
}

fn eval_side(expr: &Expression, columns: &[Column], values: &[Value], numbers: &Numbers) -> (r:
    Result<Value, String>)
    ensures
        match r {
            Ok(v) => side_value(line_of(columns@, values@, numbers@), *expr) == Ok::<
                Val,
                Seq<char>,
            >(v@),
            Err(e) => side_value(line_of(columns@, values@, numbers@), *expr) == Err::<
                Val,
                Seq<char>,
            >(e@),
        },
    decreases *expr, 1nat,
{
    if is_a_condition(expr) {
        match eval_where(expr, columns, values, numbers) {
            Ok(b) => Ok(
                Value::Int(
                    if b {
                        1
                    } else {
                        0
                    },
                ),
            ),
            Err(e) => Err(e),
        }
    } else {
        eval_expr(expr, columns, values, numbers)
    }
}

/// Whether a condition holds for a row.
pub fn eval_where(
    expr: &Expression,
    columns: &[Column],
    values: &[Value],
    numbers: &Numbers,
) -> (r: Result<bool, String>)
    ensures
        match r {
            Ok(b) => condition_holds(line_of(columns@, values@, numbers@), *expr) == Ok::<
                bool,
                Seq<char>,
            >(b),
            Err(e) => condition_holds(line_of(columns@, values@, numbers@), *expr) == Err::<
                bool,
                Seq<char>,
            >(e@),
        },
    decreases *expr, 0nat,
{
    match &expr.node {
        Node::Binary { left, op, right } => {
            let combines: bool = match op {
                Operator::And => true,
                Operator::Or => true,
                _ => false,
            };
            let a = if combines {
                eval_side(left, columns, values, numbers)
            } else {
                eval_expr(left, columns, values, numbers)
            };
            let x = match a {
                Ok(x) => x,
                Err(e) => {
                    return Err(e);
                },
            };
            let b = if combines {
                eval_side(right, columns, values, numbers)
            } else {
                eval_expr(right, columns, values, numbers)
            };
            match b {
                Ok(y) => compare_values(numbers, op, &x, &y),
                Err(e) => Err(e),
            }
        },
        Node::Like { negated, operand, pattern } => {
            let x = match eval_expr(operand, columns, values, numbers) {
                Ok(x) => x,
                Err(e) => {
                    return Err(e);
                },
            };
            match eval_expr(pattern, columns, values, numbers) {
                Ok(y) => Ok(like_match(&x, &y) != *negated),
                Err(e) => Err(e),
            }
        },
        Node::IsNull(operand) => match eval_expr(operand, columns, values, numbers) {
            Ok(x) => Ok(
                match x {
                    Value::Null => true,
                    _ => false,
                },
            ),
            Err(e) => Err(e),
        },
        Node::IsNotNull(operand) => match eval_expr(operand, columns, values, numbers) {
            Ok(x) => Ok(
                match x {
                    Value::Null => false,
                    _ => true,
                },
            ),
            Err(e) => Err(e),
        },
        Node::Between { operand, negated, low, high } => {
            let x = match eval_expr(operand, columns, values, numbers) {
                Ok(x) => x,
                Err(e) => {
                    return Err(e);
                },
            };
            let y = match eval_expr(low, columns, values, numbers) {
                Ok(y) => y,
                Err(e) => {
                    return Err(e);
                },
            };
            match eval_expr(high, columns, values, numbers) {
                Ok(z) => Ok(value_between(&x, &y, &z) != *negated),
                Err(e) => Err(e),
            }
        },
        Node::InList { operand, list, negated } => match eval_expr(
            operand,
            columns,
            values,
            numbers,
        ) {
            Ok(x) => Ok(value_listed(&x, list, columns, values, numbers) != *negated),
            Err(e) => Err(e),
        },
        _ => match eval_expr(expr, columns, values, numbers) {
            Ok(x) => Ok(
                match as_bool(&x) {
                    Some(b) => b,
                    None => false,
                },
            ),
            Err(e) => Err(e),
        },
    }
}

/// Whether a row is selected.
pub fn row_selected(
    selection: &Option<Expression>,
    columns: &[Column],
    values: &[Value],
    numbers: &Numbers,
) -> (r: bool)
    ensures
        r == is_selected(line_of(columns@, values@, numbers@), *selection),
{
    match selection {
        Some(e) => match eval_where(e, columns, values, numbers) {
            Ok(b) => b,
            Err(_) => false,
        },
        None => true,
    }
}

// ---------------------------------------------------------------------------
// Equalities that a condition demands
// ---------------------------------------------------------------------------

/// The column that an expression names.
pub open spec fn column_ref(e: Expression) -> Option<Seq<char>> {
    match e.node {
        Node::Identifier(name) => Some(name@),
        _ => None,
    }
}

/// The first value that was demanded of a column stays.
pub open spec fn demanded(acc: Map<Seq<char>, Val>, column: Seq<char>, v: Val) -> Map<
    Seq<char>,
    Val,
> {
    if acc.contains_key(text::lowercase(column)) {
        acc
    } else {
        acc.insert(text::lowercase(column), v)
    }
}

/// The equalities of columns with literals that a condition demands, over those
/// collected so far.
pub open spec fn demands(n: NumbersV, e: Expression, acc: Map<Seq<char>, Val>) -> Map<
    Seq<char>,
    Val,
>
    decreases e,
{
    match e.node {
        Node::Binary { left, op: Operator::And, right } => demands(
            n,
            *right,
            demands(n, *left, acc),
        ),
        Node::Binary { left, op: Operator::Eq, right } => match (
            column_ref(*left),
            constant(n, *right),
        ) {
            (Some(c), Some(v)) => demanded(acc, c, v),
            _ => match (column_ref(*right), constant(n, *left)) {
                (Some(c), Some(v)) => demanded(acc, c, v),
                _ => acc,
            },
        },
        _ => acc,
    }
}

fn demand(acc: &mut NameMap<Value>, column: &str, value: Value)
    ensures
        final(acc)@ == demanded(old(acc)@, column@, value@),
{
    let key = column.to_lowercase();
    if !acc.contains(key.as_str()) {
        acc.insert(key, value);
    }
}

fn extract_column_ref(expr: &Expression) -> (r: Option<&String>)
    ensures
        match r {
            Some(s) => column_ref(*expr) == Some(s@),
            None => column_ref(*expr) is None,
        },
{
    match &expr.node {
        Node::Identifier(name) => Some(name),
        _ => None,
    }
}

fn extract_eq_conditions_recursive(expr: &Expression, numbers: &Numbers, acc: &mut NameMap<Value>)
    ensures
        final(acc)@ == demands(numbers@, *expr, old(acc)@),
    decreases *expr,
{
    match &expr.node {
        Node::Binary { left, op: Operator::And, right } => {
            extract_eq_conditions_recursive(left, numbers, acc);
            extract_eq_conditions_recursive(right, numbers, acc);
        },
        Node::Binary { left, op: Operator::Eq, right } => {
            let forward = (extract_column_ref(left), eval_const_expr(right, numbers));
            if let (Some(c), Some(v)) = forward {
                demand(acc, c.as_str(), v);
            } else {
                let backward = (extract_column_ref(right), eval_const_expr(left, numbers));
                if let (Some(c), Some(v)) = backward {
                    demand(acc, c.as_str(), v);
                }
            }
        },
        _ => {},
    }
}

/// The equalities of columns with literals that a condition demands, by column
/// name in lower case.
pub fn extract_eq_conditions(expr: &Expression, numbers: &Numbers) -> (r: NameMap<Value>)
    ensures
        r@ == demands(numbers@, *expr, Map::empty()),
{
    let mut acc: NameMap<Value> = NameMap::new();
    extract_eq_conditions_recursive(expr, numbers, &mut acc);
    acc
}

} // verus!
