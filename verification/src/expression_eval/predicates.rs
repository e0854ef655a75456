//! Conditions, comparisons, arithmetic and patterns.

use vstd::prelude::*;

use super::{Column, EvalError, Evaluated, Operator, Outcome, RowSchema};
use crate::text;
use crate::text::{chars_of, order_texts, push_text, same_text, string_of, Order};
use crate::values;
use crate::values::{ScalarValue, ScalarView};

verus! {

/// A value as a truth value; an untyped null is unknown.
pub open spec fn truth_value(value: ScalarView) -> Result<Option<bool>, EvalError> {
    match value {
        ScalarView::Boolean(truth) => Ok(truth),
        ScalarView::Null => Ok(None),
        _ => Err(EvalError::NotBoolean),
    }
}

/// Conjunction in three-valued logic.
pub open spec fn and_values(a: Option<bool>, b: Option<bool>) -> Option<bool> {
    if a == Some(false) || b == Some(false) {
        Some(false)
    } else if a is None || b is None {
        None
    } else {
        Some(true)
    }
}

/// Disjunction in three-valued logic.
pub open spec fn or_values(a: Option<bool>, b: Option<bool>) -> Option<bool> {
    if a == Some(true) || b == Some(true) {
        Some(true)
    } else if a is None || b is None {
        None
    } else {
        Some(false)
    }
}

/// The order of two integers.
pub open spec fn integer_order(a: int, b: int) -> Order {
    if a < b {
        Order::Less
    } else if a == b {
        Order::Equal
    } else {
        Order::Greater
    }
}

/// The order of two values that are not null, where they can be ordered.
pub open spec fn order_of(a: ScalarView, b: ScalarView) -> Option<Order> {
    match (a, b) {
        (ScalarView::Int64(Some(x)), ScalarView::Int64(Some(y))) => Some(
            integer_order(x as int, y as int),
        ),
        (
            ScalarView::TimestampMillisecond(Some(x), _),
            ScalarView::TimestampMillisecond(Some(y), _),
        ) => Some(integer_order(x as int, y as int)),
        (ScalarView::Utf8(Some(x)), ScalarView::Utf8(Some(y))) => Some(text::text_order(x, y)),
        _ => None,
    }
}

/// Whether an operator that orders values accepts this order.
pub open spec fn order_accepted(op: Operator, order: Order) -> Option<bool> {
    match op {
        Operator::Lt => Some(order == Order::Less),
        Operator::LtEq => Some(order != Order::Greater),
        Operator::Gt => Some(order == Order::Greater),
        Operator::GtEq => Some(order != Order::Less),
        _ => None,
    }
}

/// What comparing two values gives; unknown when one is null.
pub open spec fn value_order(a: ScalarView, b: ScalarView, op: Operator) -> Result<
    Option<bool>,
    EvalError,
> {
    if values::null_value(a) || values::null_value(b) {
        Ok(None)
    } else {
        match order_of(a, b) {
            None => Err(EvalError::ComparisonOperands),
            Some(order) => match order_accepted(op, order) {
                None => Err(EvalError::ComparisonOperator),
                Some(accepted) => Ok(Some(accepted)),
            },
        }
    }
}

/// The integer that an operand of arithmetic holds.
pub open spec fn integer_value(value: ScalarView) -> Result<i64, EvalError> {
    match value {
        ScalarView::Int64(Some(v)) => Ok(v),
        ScalarView::TimestampMillisecond(Some(v), _) => Ok(v),
        _ => Err(EvalError::ArithmeticOperand),
    }
}

/// The size of an integer without its sign.
pub open spec fn magnitude(v: int) -> int {
    if v < 0 {
        -v
    } else {
        v
    }
}

/// The quotient rounded towards zero.
pub open spec fn truncated_quotient(a: int, b: int) -> int {
    let q = magnitude(a) / magnitude(b);
    if (a < 0) == (b < 0) {
        q
    } else {
        -q
    }
}

/// The remainder of a division rounded towards zero; it has the sign of the dividend.
pub open spec fn truncated_remainder(a: int, b: int) -> int {
    let r = magnitude(a) % magnitude(b);
    if a < 0 {
        -r
    } else {
        r
    }
}

/// The exact result of an arithmetic operator; none where a divisor is zero.
pub open spec fn arithmetic_result(op: Operator, a: int, b: int) -> Option<int> {
    match op {
        Operator::Plus => Some(a + b),
        Operator::Minus => Some(a - b),
        Operator::Multiply => Some(a * b),
        Operator::Divide => if b == 0 {
            None
        } else {
            Some(truncated_quotient(a, b))
        },
        // The quotient of the same operands must fit too.
        Operator::Modulo => if b == 0 || (a == i64::MIN && b == -1) {
            None
        } else {
            Some(truncated_remainder(a, b))
        },
        _ => None,
    }
}

/// What arithmetic on two integers comes to.
pub open spec fn arithmetic_outcome(op: Operator, a: i64, b: i64) -> Outcome {
    match arithmetic_result(op, a as int, b as int) {
        Some(result) => if i64::MIN <= result <= i64::MAX {
            Outcome::Value(ScalarView::Int64(Some(result as i64)))
        } else {
            Outcome::Panics
        },
        None => Outcome::Panics,
    }
}

/// Whether an operator computes with integers.
pub open spec fn is_arithmetic(op: Operator) -> bool {
    op == Operator::Plus || op == Operator::Minus || op == Operator::Multiply || op
        == Operator::Divide || op == Operator::Modulo
}

/// What a binary operator comes to on two values.
pub open spec fn binary_outcome(op: Operator, left: ScalarView, right: ScalarView) -> Outcome {
    if op == Operator::Eq {
        Outcome::Value(ScalarView::Boolean(super::equal_values(left, right)))
    } else if op == Operator::NotEq {
        Outcome::Value(ScalarView::Boolean(super::not_value(super::equal_values(left, right))))
    } else if op == Operator::Lt || op == Operator::LtEq || op == Operator::Gt || op
        == Operator::GtEq {
        match value_order(left, right, op) {
            Ok(accepted) => Outcome::Value(ScalarView::Boolean(accepted)),
            Err(error) => Outcome::Error(error),
        }
    } else if op == Operator::And || op == Operator::Or {
        match (truth_value(left), truth_value(right)) {
            (Ok(a), Ok(b)) => Outcome::Value(
                ScalarView::Boolean(
                    if op == Operator::And {
                        and_values(a, b)
                    } else {
                        or_values(a, b)
                    },
                ),
            ),
            _ => Outcome::Error(EvalError::NotBoolean),
        }
    } else if is_arithmetic(op) {
        match (integer_value(left), integer_value(right)) {
            (Ok(a), Ok(b)) => arithmetic_outcome(op, a, b),
            _ => Outcome::Error(EvalError::ArithmeticOperand),
        }
    } else if op == Operator::StringConcat {
        match (left, right) {
            (ScalarView::Utf8(Some(a)), ScalarView::Utf8(Some(b))) => Outcome::Value(
                ScalarView::Utf8(Some(a + b)),
            ),
            _ => Outcome::Error(EvalError::ConcatOperand),
        }
    } else {
        Outcome::Error(EvalError::UnsupportedOperator)
    }
}

/// Whether a text matches a LIKE pattern: `%` stands for any text, `_` for any character.
pub open spec fn like_matches(value: Seq<char>, pattern: Seq<char>) -> bool
    decreases value.len() + pattern.len(),
{
    if pattern.len() == 0 {
        value.len() == 0
    } else if pattern.last() == '%' {
        like_matches(value, pattern.drop_last()) || (value.len() > 0 && like_matches(
            value.drop_last(),
            pattern,
        ))
    } else {
        value.len() > 0 && (pattern.last() == '_' || pattern.last() == value.last())
            && like_matches(value.drop_last(), pattern.drop_last())
    }
}

/// The position of a column: under its qualified name, else under its plain name.
pub open spec fn resolved_column(names: Seq<Seq<char>>, column: Column) -> Option<int> {
    match super::first_index(names, super::flat_name(column)) {
        Some(index) => Some(index),
        None => super::first_index(names, column.name@),
    }
}

/// A value as a truth value.
pub fn scalar_to_bool_opt(value: &ScalarValue) -> (truth: Result<Option<bool>, EvalError>)
    ensures
        truth == truth_value(value@),
{
    match value {
        ScalarValue::Boolean(truth) => Ok(*truth),
        ScalarValue::Null => Ok(None),
        _ => Err(EvalError::NotBoolean),
    }
}

/// Conjunction in three-valued logic.
pub fn and_bool_opt(lhs: Option<bool>, rhs: Option<bool>) -> (both: Option<bool>)
    ensures
        both == and_values(lhs, rhs),
{
    match (lhs, rhs) {
        (Some(false), _) => Some(false),
        (Some(true), other) => other,
        (None, Some(false)) => Some(false),
        (None, Some(true)) => None,
        (None, None) => None,
    }
}

/// Disjunction in three-valued logic.
pub fn or_bool_opt(lhs: Option<bool>, rhs: Option<bool>) -> (either: Option<bool>)
    ensures
        either == or_values(lhs, rhs),
{
    match (lhs, rhs) {
        (Some(true), _) => Some(true),
        (Some(false), other) => other,
        (None, Some(true)) => Some(true),
        (None, Some(false)) => None,
        (None, None) => None,
    }
}

fn order_integers(a: i64, b: i64) -> (order: Order)
    ensures
        order == integer_order(a as int, b as int),
{
    if a < b {
        Order::Less
    } else if a == b {
        Order::Equal
    } else {
        Order::Greater
    }
}

/// Compares two values with an operator that orders them.
pub fn scalar_compare(lhs: &ScalarValue, rhs: &ScalarValue, op: Operator) -> (accepted: Result<
    Option<bool>,
    EvalError,
>)
    ensures
        accepted == value_order(lhs@, rhs@, op),
{
    if lhs.is_null() || rhs.is_null() {
        return Ok(None);
    }
    let order: Order = match (lhs, rhs) {
        (ScalarValue::Int64(Some(a)), ScalarValue::Int64(Some(b))) => order_integers(*a, *b),
        (
            ScalarValue::TimestampMillisecond(Some(a), _),
            ScalarValue::TimestampMillisecond(Some(b), _),
        ) => order_integers(*a, *b),
        (ScalarValue::Utf8(Some(a)), ScalarValue::Utf8(Some(b))) => order_texts(
            a.as_str(),
            b.as_str(),
        ),
        _ => {
            return Err(EvalError::ComparisonOperands);
        },
    };
    match op {
        Operator::Lt => Ok(Some(order == Order::Less)),
        Operator::LtEq => Ok(Some(order != Order::Greater)),
        Operator::Gt => Ok(Some(order == Order::Greater)),
        Operator::GtEq => Ok(Some(order != Order::Less)),
        _ => Err(EvalError::ComparisonOperator),
    }
}

/// The integer that an operand of arithmetic holds.
pub fn scalar_to_i64(value: &ScalarValue) -> (number: Result<i64, EvalError>)
    ensures
        number == integer_value(value@),
{
    match value {
        ScalarValue::Int64(Some(v)) => Ok(*v),
        ScalarValue::TimestampMillisecond(Some(v), _) => Ok(*v),
        _ => Err(EvalError::ArithmeticOperand),
    }
}

fn magnitude_of(v: i64) -> (size: u64)
    ensures
        size == magnitude(v as int),
{
    if v < 0 {
        (-(v + 1)) as u64 + 1
    } else {
        v as u64
    }
}

/// The quotient of two integers rounded towards zero.
pub(crate) fn divide_i64(a: i64, b: i64) -> (quotient: i64)
    requires
        b != 0,
        i64::MIN <= truncated_quotient(a as int, b as int) <= i64::MAX,
    ensures
        quotient == truncated_quotient(a as int, b as int),
{
    let q: u64 = magnitude_of(a) / magnitude_of(b);
    if (a < 0) == (b < 0) {
        q as i64
    } else if q == 0x8000_0000_0000_0000 {
        i64::MIN
    } else {
        -(q as i64)
    }
}

/// The remainder of the division of two integers rounded towards zero.
pub(crate) fn remainder_i64(a: i64, b: i64) -> (remainder: i64)
    requires
        b != 0,
    ensures
        remainder == truncated_remainder(a as int, b as int),
{
    let r: u64 = magnitude_of(a) % magnitude_of(b);
    if a < 0 {
        -(r as i64)
    } else {
        r as i64
    }
}

/// The quotient of two integers fits unless the smallest integer is divided by minus one.
pub(crate) proof fn lemma_quotient_fits(a: int, b: int)
    requires
        i64::MIN <= a <= i64::MAX,
        i64::MIN <= b <= i64::MAX,
        b != 0,
        a != i64::MIN || b != -1,
    ensures
        i64::MIN <= truncated_quotient(a, b) <= i64::MAX,
{
    let m = magnitude(a);
    let n = magnitude(b);
    assert(m / n <= m) by (nonlinear_arith)
        requires
            m >= 0,
            n >= 1,
    ;
    assert(0 <= m / n) by (nonlinear_arith)
        requires
            m >= 0,
            n >= 1,
    ;
    if n > 1 {
        assert(2 * (m / n) <= m) by (nonlinear_arith)
            requires
                m >= 0,
                n >= 2,
        ;
    }
}

fn eval_arithmetic(op: Operator, a: i64, b: i64) -> (result: Evaluated)
    requires
        is_arithmetic(op),
    ensures
        result@ == arithmetic_outcome(op, a, b),
{
    let wide: i128 = match op {
        Operator::Plus => a as i128 + b as i128,
        Operator::Minus => a as i128 - b as i128,
        Operator::Multiply => {
            proof {
                let x = a as int;
                let y = b as int;
                assert(-0x4000_0000_0000_0000_0000_0000_0000_0000 <= x * y
                    <= 0x4000_0000_0000_0000_0000_0000_0000_0000) by (nonlinear_arith)
                    requires
                        -0x8000_0000_0000_0000 <= x <= 0x8000_0000_0000_0000,
                        -0x8000_0000_0000_0000 <= y <= 0x8000_0000_0000_0000,
                ;
            }
            a as i128 * b as i128
        },
        Operator::Divide => {
            if b == 0 {
                return Evaluated::Panics;
            }
            if a == i64::MIN && b == -1 {
                return Evaluated::Panics;
            }
            proof {
                lemma_quotient_fits(a as int, b as int);
            }
            divide_i64(a, b) as i128
        },
        _ => {
            if b == 0 || (a == i64::MIN && b == -1) {
                return Evaluated::Panics;
            }
            remainder_i64(a, b) as i128
        },
    };
    if wide >= i64::MIN as i128 && wide <= i64::MAX as i128 {
        Evaluated::Value(ScalarValue::Int64(Some(wide as i64)))
    } else {
        Evaluated::Panics
    }
}

/// Applies a binary operator to two values.
pub fn eval_binary(op: Operator, left: &ScalarValue, right: &ScalarValue) -> (result: Evaluated)
    ensures
        result@ == binary_outcome(op, left@, right@),
{
    match op {
        Operator::Eq => Evaluated::Value(ScalarValue::Boolean(super::scalar_equals(left, right))),
        Operator::NotEq => {
            let result: Option<bool> = match super::scalar_equals(left, right) {
                Some(equal) => Some(!equal),
                None => None,
            };
            Evaluated::Value(ScalarValue::Boolean(result))
        },
        Operator::Lt | Operator::LtEq | Operator::Gt | Operator::GtEq => match scalar_compare(
            left,
            right,
            op,
        ) {
            Ok(accepted) => Evaluated::Value(ScalarValue::Boolean(accepted)),
            Err(error) => Evaluated::Error(error),
        },
        Operator::And => match (scalar_to_bool_opt(left), scalar_to_bool_opt(right)) {
            (Ok(a), Ok(b)) => Evaluated::Value(ScalarValue::Boolean(and_bool_opt(a, b))),
            _ => Evaluated::Error(EvalError::NotBoolean),
        },
        Operator::Or => match (scalar_to_bool_opt(left), scalar_to_bool_opt(right)) {
            (Ok(a), Ok(b)) => Evaluated::Value(ScalarValue::Boolean(or_bool_opt(a, b))),
            _ => Evaluated::Error(EvalError::NotBoolean),
        },
        Operator::Plus | Operator::Minus | Operator::Multiply | Operator::Divide
        | Operator::Modulo => match (scalar_to_i64(left), scalar_to_i64(right)) {
            (Ok(a), Ok(b)) => eval_arithmetic(op, a, b),
            _ => Evaluated::Error(EvalError::ArithmeticOperand),
        },
        Operator::StringConcat => match (left, right) {
            (ScalarValue::Utf8(Some(a)), ScalarValue::Utf8(Some(b))) => {
                let mut out: Vec<char> = Vec::new();
                push_text(&mut out, a.as_str());
                push_text(&mut out, b.as_str());
                assert(out@ =~= a@ + b@);
                Evaluated::Value(ScalarValue::Utf8(Some(string_of(out))))
            },
            _ => Evaluated::Error(EvalError::ConcatOperand),
        },
        Operator::Unsupported => Evaluated::Error(EvalError::UnsupportedOperator),
    }
}

/// The matches of the empty text against the prefixes of a pattern.
fn first_like_row(pattern: &Vec<char>) -> (row: Vec<bool>)
    ensures
        row@.len() == pattern@.len() + 1,
        forall|j: int|
            0 <= j <= pattern@.len() ==> #[trigger] row@[j] == like_matches(
                Seq::empty(),
                pattern@.take(j),
            ),
{
    let mut row: Vec<bool> = Vec::new();
    row.push(true);
    let mut j: usize = 0;
    assert(pattern@.take(0) =~= Seq::<char>::empty());
    while j < pattern.len()
        invariant
            j <= pattern@.len(),
            row@.len() == j + 1,
            forall|k: int|
                0 <= k <= j ==> #[trigger] row@[k] == like_matches(
                    Seq::empty(),
                    pattern@.take(k),
                ),
        decreases pattern@.len() - j,
    {
        let matched: bool = pattern[j] == '%' && row[j];
        proof {
            let longer = pattern@.take(j + 1);
            assert(longer.drop_last() =~= pattern@.take(j as int));
            assert(longer.last() == pattern@[j as int]);
        }
        row.push(matched);
        j = j + 1;
    }
    row
}

/// The matches of a text one character longer against the prefixes of a pattern.
fn next_like_row(
    value: &Vec<char>,
    i: usize,
    pattern: &Vec<char>,
    previous: &Vec<bool>,
) -> (row: Vec<bool>)
    requires
        i < value@.len(),
        previous@.len() == pattern@.len() + 1,
        forall|j: int|
            0 <= j <= pattern@.len() ==> #[trigger] previous@[j] == like_matches(
                value@.take(i as int),
                pattern@.take(j),
            ),
    ensures
        row@.len() == pattern@.len() + 1,
        forall|j: int|
            0 <= j <= pattern@.len() ==> #[trigger] row@[j] == like_matches(
                value@.take(i + 1),
                pattern@.take(j),
            ),
{
    let ghost text = value@.take(i + 1);
    let ghost shorter = value@.take(i as int);
    assert(text.drop_last() =~= shorter);
    assert(text.last() == value@[i as int]);
    assert(pattern@.take(0) =~= Seq::<char>::empty());
    let mut row: Vec<bool> = Vec::new();
    row.push(false);
    let mut j: usize = 0;
    while j < pattern.len()
        invariant
            i < value@.len(),
            j <= pattern@.len(),
            previous@.len() == pattern@.len() + 1,
            forall|k: int|
                0 <= k <= pattern@.len() ==> #[trigger] previous@[k] == like_matches(
                    shorter,
                    pattern@.take(k),
                ),
            text.len() > 0,
            text.drop_last() == shorter,
            text.last() == value@[i as int],
            row@.len() == j + 1,
            forall|k: int|
                0 <= k <= j ==> #[trigger] row@[k] == like_matches(text, pattern@.take(k)),
        decreases pattern@.len() - j,
    {
        let c: char = pattern[j];
        let matched: bool = if c == '%' {
            row[j] || previous[j + 1]
        } else if c == '_' {
            previous[j]
        } else {
            previous[j] && value[i] == c
        };
        proof {
            let longer = pattern@.take(j + 1);
            assert(longer.drop_last() =~= pattern@.take(j as int));
            assert(longer.last() == c);
            assert(previous@[j as int] == like_matches(shorter, pattern@.take(j as int)));
            assert(previous@[j + 1] == like_matches(shorter, longer));
            assert(row@[j as int] == like_matches(text, pattern@.take(j as int)));
        }
        row.push(matched);
        j = j + 1;
    }
    row
}

/// Whether a text matches a LIKE pattern.
pub fn matches_like(value: &str, pattern: &str) -> (matched: bool)
    ensures
        matched == like_matches(value@, pattern@),
{
    let value_chars = chars_of(value);
    let pattern_chars = chars_of(pattern);
    let mut row = first_like_row(&pattern_chars);
    let mut i: usize = 0;
    assert(value_chars@.take(0) =~= Seq::<char>::empty());
    while i < value_chars.len()
        invariant
            i <= value_chars@.len(),
            row@.len() == pattern_chars@.len() + 1,
            forall|j: int|
                0 <= j <= pattern_chars@.len() ==> #[trigger] row@[j] == like_matches(
                    value_chars@.take(i as int),
                    pattern_chars@.take(j),
                ),
        decreases value_chars@.len() - i,
    {
        row = next_like_row(&value_chars, i, &pattern_chars, &row);
        i = i + 1;
    }
    assert(value_chars@.take(i as int) =~= value@);
    assert(pattern_chars@.take(pattern_chars@.len() as int) =~= pattern@);
    let last: usize = pattern_chars.len();
    row[last]
}

impl RowSchema {
    /// The position of the first column with this name.
    pub fn field_index(&self, name: &str) -> (index: Option<usize>)
        ensures
            match index {
                Some(i) => super::first_index(super::field_names(*self), name@) == Some(i as int)
                    && i < self.fields@.len(),
                None => super::first_index(super::field_names(*self), name@) is None,
            },
    {
        let ghost names = super::field_names(*self);
        let mut i: usize = 0;
        while i < self.fields.len()
            invariant
                i <= self.fields@.len(),
                names == super::field_names(*self),
                forall|j: int| 0 <= j < i ==> #[trigger] names[j] != name@,
            decreases self.fields@.len() - i,
        {
            if same_text(self.fields[i].as_str(), name) {
                proof {
                    assert(names[i as int] == name@);
                    assert(super::first_at(names, name@, i as int));
                    let c = choose|k: int| super::first_at(names, name@, k);
                    assert(super::first_at(names, name@, c));
                    assert(c == i);
                }
                return Some(i);
            }
            i = i + 1;
        }
        None
    }
}

/// The position of a column: under its qualified name, else under its plain name.
pub fn resolve_column(schema: &RowSchema, column: &Column) -> (index: Result<usize, EvalError>)
    ensures
        match index {
            Ok(i) => resolved_column(super::field_names(*schema), *column) == Some(i as int),
            Err(error) => resolved_column(super::field_names(*schema), *column) is None && error
                == EvalError::ColumnNotFound,
        },
{
    let mut flat: Vec<char> = Vec::new();
    match &column.relation {
        Some(relation) => {
            push_text(&mut flat, relation.as_str());
            flat.push('.');
        },
        None => {},
    }
    push_text(&mut flat, column.name.as_str());
    assert(flat@ =~= super::flat_name(*column));
    let qualified = string_of(flat);
    match schema.field_index(qualified.as_str()) {
        Some(index) => Ok(index),
        None => match schema.field_index(column.name.as_str()) {
            Some(index) => Ok(index),
            None => Err(EvalError::ColumnNotFound),
        },
    }
}

/// Conjunction and disjunction do not depend on the order of their operands, and negation
/// exchanges them.
pub proof fn law_three_valued_logic(a: Option<bool>, b: Option<bool>)
    ensures
        and_values(a, b) == and_values(b, a),
        or_values(a, b) == or_values(b, a),
        super::not_value(and_values(a, b)) == or_values(super::not_value(a), super::not_value(b)),
        super::not_value(or_values(a, b)) == and_values(super::not_value(a), super::not_value(b)),
{
}

/// A comparison with a null is unknown, whatever the other operand is.
pub proof fn law_null_comparisons_are_unknown(value: ScalarView, null: ScalarView, op: Operator)
    requires
        values::null_value(null),
        op == Operator::Eq || op == Operator::NotEq || op == Operator::Lt || op == Operator::LtEq
            || op == Operator::Gt || op == Operator::GtEq,
    ensures
        binary_outcome(op, value, null) == Outcome::Value(ScalarView::Boolean(None)),
        binary_outcome(op, null, value) == Outcome::Value(ScalarView::Boolean(None)),
{
}

/// `%` alone matches every text.
pub proof fn law_percent_matches_everything(value: Seq<char>)
    ensures
        like_matches(value, seq!['%']),
    decreases value.len(),
{
    reveal_with_fuel(like_matches, 2);
    let pattern = seq!['%'];
    assert(pattern.drop_last() =~= Seq::<char>::empty());
    if value.len() > 0 {
        law_percent_matches_everything(value.drop_last());
    }
}

/// A pattern without wildcards matches exactly itself.
pub proof fn law_plain_pattern_matches_itself(value: Seq<char>, pattern: Seq<char>)
    requires
        !pattern.contains('%'),
        !pattern.contains('_'),
    ensures
        like_matches(value, pattern) <==> value == pattern,
    decreases pattern.len(),
{
    if pattern.len() == 0 {
        assert(value.len() == 0 ==> value =~= pattern);
    } else {
        let p = pattern.drop_last();
        assert(pattern.contains(pattern.last()));
        assert forall|c: char| p.contains(c) implies pattern.contains(c) by {
            let k = choose|k: int| 0 <= k < p.len() && p[k] == c;
            assert(pattern[k] == c);
        }
        if value.len() > 0 {
            law_plain_pattern_matches_itself(value.drop_last(), p);
            assert(value =~= value.drop_last().push(value.last()));
            assert(pattern =~= p.push(pattern.last()));
        }
    }
}

} // verus!
