//! What holds of the evaluation of SQL expressions as a whole.

use vstd::prelude::*;

use super::casts;
use super::predicates;
use super::scalar_functions;
use super::{Column, DfExpr, EvalError, FunctionKind, Operator, Outcome};
use crate::text;
use crate::values;
use crate::values::{DataType, ScalarValue, ScalarView, TimeUnit};

verus! {

/// What an operator between two expressions gives.
pub open spec fn binary(
    left: DfExpr,
    op: Operator,
    right: DfExpr,
    row: Seq<ScalarView>,
    names: Seq<Seq<char>>,
) -> Outcome {
    super::eval_outcome(
        DfExpr::BinaryExpr { left: Box::new(left), op, right: Box::new(right) },
        row,
        names,
    )
}

/// A truth value, or an unknown one, as an outcome.
pub open spec fn truth(value: Option<bool>) -> Outcome {
    Outcome::Value(ScalarView::Boolean(value))
}

/// A constant has its own value, another name changes nothing, and a column has the value of the
/// row at the position of its name: its qualified name, or where no column has that, its plain
/// name, and the first of several with the same name.
pub proof fn law_columns_and_constants(
    inner: DfExpr,
    value: ScalarValue,
    column: Column,
    row: Seq<ScalarView>,
    names: Seq<Seq<char>>,
    at: int,
)
    ensures
        super::eval_outcome(DfExpr::Literal(value), row, names) == Outcome::Value(value@),
        super::eval_outcome(DfExpr::Alias(Box::new(inner)), row, names) == super::eval_outcome(
            inner,
            row,
            names,
        ),
        ({
            let outcome = super::eval_outcome(DfExpr::Column(column), row, names);
            let full = match column.relation {
                Some(relation) => relation@ + seq!['.'] + column.name@,
                None => column.name@,
            };
            let first = |name: Seq<char>|
                0 <= at < names.len() && names[at] == name && forall|j: int|
                    0 <= j < at ==> #[trigger] names[j] != name;
            let missing = |name: Seq<char>|
                forall|j: int| 0 <= j < names.len() ==> #[trigger] names[j] != name;
            &&& first(full) && at < row.len() ==> outcome == Outcome::Value(row[at])
            &&& missing(full) && first(column.name@) && at < row.len() ==> outcome
                == Outcome::Value(row[at])
            &&& missing(full) && missing(column.name@) ==> outcome == Outcome::Error(
                EvalError::ColumnNotFound,
            )
            &&& first(full) && at >= row.len() && at <= usize::MAX ==> outcome == Outcome::Error(
                EvalError::ColumnOutOfBounds(at as usize),
            )
        }),
{
    let full = super::flat_name(column);
    lemma_first_index(names, full, at);
    lemma_first_index(names, column.name@, at);
}

proof fn lemma_first_index(names: Seq<Seq<char>>, name: Seq<char>, at: int)
    ensures
        super::first_at(names, name, at) ==> super::first_index(names, name) == Some(at),
        (forall|j: int| 0 <= j < names.len() ==> #[trigger] names[j] != name)
            ==> super::first_index(names, name) is None,
{
    if super::first_at(names, name, at) {
        assert(names[at] == name);
        let found = choose|i: int| super::first_at(names, name, i);
        assert(super::first_at(names, name, found));
        if found < at {
            assert(names[found] != name);
        } else if at < found {
            assert(names[at] != name);
        }
    }
}

/// The tests of truth values: of `IS TRUE`, `IS FALSE` and `IS UNKNOWN` just one holds, each `IS
/// NOT` is the opposite of its `IS`, and `NOT` exchanges true and false and leaves the unknown.
pub proof fn law_truth_tests(
    inner: DfExpr,
    value: Option<bool>,
    row: Seq<ScalarView>,
    names: Seq<Seq<char>>,
)
    requires
        super::eval_outcome(inner, row, names) == truth(value),
    ensures
        ({
            let of = |expr: DfExpr| super::eval_outcome(expr, row, names);
            let is_true = of(DfExpr::IsTrue(Box::new(inner)));
            let is_false = of(DfExpr::IsFalse(Box::new(inner)));
            let is_unknown = of(DfExpr::IsUnknown(Box::new(inner)));
            let not = of(DfExpr::Not(Box::new(inner)));
            &&& is_true == truth(Some(value == Some(true)))
            &&& is_false == truth(Some(value == Some(false)))
            &&& is_unknown == truth(Some(value is None))
            &&& of(DfExpr::IsNotTrue(Box::new(inner))) == truth(Some(is_true == truth(Some(false))))
            &&& of(DfExpr::IsNotFalse(Box::new(inner))) == truth(
                Some(is_false == truth(Some(false))),
            )
            &&& of(DfExpr::IsNotUnknown(Box::new(inner))) == truth(
                Some(is_unknown == truth(Some(false))),
            )
            &&& value == Some(true) ==> not == truth(Some(false))
            &&& value == Some(false) ==> not == truth(Some(true))
            &&& value is None ==> not == truth(None)
            &&& of(DfExpr::Not(Box::new(DfExpr::Not(Box::new(inner))))) == truth(value)
        }),
{
    let once = DfExpr::Not(Box::new(inner));
    assert(super::eval_outcome(once, row, names) == truth(super::not_value(value)));
}

/// Whether a value is null: nulls of every type are, and nothing else is. `IS NOT NULL` is the
/// opposite of `IS NULL`.
pub proof fn law_null_tests(
    inner: DfExpr,
    value: ScalarView,
    row: Seq<ScalarView>,
    names: Seq<Seq<char>>,
)
    requires
        super::eval_outcome(inner, row, names) == Outcome::Value(value),
    ensures
        ({
            let null = match value {
                ScalarView::Null => true,
                ScalarView::Boolean(None) => true,
                ScalarView::Int64(None) => true,
                ScalarView::Float64(None) => true,
                ScalarView::Utf8(None) => true,
                ScalarView::TimestampMillisecond(None, _) => true,
                ScalarView::Other(_, None) => true,
                _ => false,
            };
            &&& super::eval_outcome(DfExpr::IsNull(Box::new(inner)), row, names) == truth(
                Some(null),
            )
            &&& super::eval_outcome(DfExpr::IsNotNull(Box::new(inner)), row, names) == truth(
                Some(!null),
            )
        }),
{
}

/// Two values that can be compared: of two integers or moments the smaller one is less, and of two
/// texts the one that comes first.
pub open spec fn comes_before(a: ScalarView, b: ScalarView) -> Option<bool> {
    match (a, b) {
        (ScalarView::Int64(Some(x)), ScalarView::Int64(Some(y))) => Some(y - x > 0),
        (
            ScalarView::TimestampMillisecond(Some(x), _),
            ScalarView::TimestampMillisecond(Some(y), _),
        ) => Some(y - x > 0),
        (ScalarView::Utf8(Some(x)), ScalarView::Utf8(Some(y))) => Some(
            text::text_order(x, y) is Less,
        ),
        _ => None,
    }
}

/// Comparisons agree with each other: `a <= b` is not `a > b`, `a >= b` is not `a < b`, `a < b` is
/// `b > a` and tells which of them comes before, and of `<`, `=` and `>` just one holds.
pub proof fn law_comparisons_agree(
    l: DfExpr,
    r: DfExpr,
    a: ScalarView,
    b: ScalarView,
    row: Seq<ScalarView>,
    names: Seq<Seq<char>>,
)
    requires
        super::eval_outcome(l, row, names) == Outcome::Value(a),
        super::eval_outcome(r, row, names) == Outcome::Value(b),
        comes_before(a, b) is Some,
    ensures
        ({
            let lt = binary(l, Operator::Lt, r, row, names);
            let gt = binary(l, Operator::Gt, r, row, names);
            let eq = binary(l, Operator::Eq, r, row, names);
            &&& lt == truth(comes_before(a, b))
            &&& gt == truth(comes_before(b, a))
            &&& binary(l, Operator::LtEq, r, row, names) == truth(Some(gt == truth(Some(false))))
            &&& binary(l, Operator::GtEq, r, row, names) == truth(Some(lt == truth(Some(false))))
            &&& binary(l, Operator::NotEq, r, row, names) == truth(Some(eq == truth(Some(false))))
            &&& binary(r, Operator::Lt, l, row, names) == gt
            &&& eq == truth(Some(lt == truth(Some(false)) && gt == truth(Some(false))))
        }),
{
    if let (ScalarView::Utf8(Some(x)), ScalarView::Utf8(Some(y))) = (a, b) {
        lemma_text_order(x, y);
    }
}

proof fn lemma_text_order(a: Seq<char>, b: Seq<char>)
    ensures
        (text::text_order(a, b) is Less) == (text::text_order(b, a) is Greater),
        (text::text_order(a, b) is Greater) == (text::text_order(b, a) is Less),
        (text::text_order(a, b) is Equal) == (a == b),
{
    let x = vstd::utf8::encode_utf8(a);
    let y = vstd::utf8::encode_utf8(b);
    lemma_byte_order(x, y);
    if x == y {
        vstd::utf8::encode_utf8_decode_utf8(a);
        vstd::utf8::encode_utf8_decode_utf8(b);
    }
}

proof fn lemma_byte_order(a: Seq<u8>, b: Seq<u8>)
    ensures
        (text::byte_order_of(a, b) is Less) == (text::byte_order_of(b, a) is Greater),
        (text::byte_order_of(a, b) is Greater) == (text::byte_order_of(b, a) is Less),
        (text::byte_order_of(a, b) is Equal) == (a == b),
    decreases a.len(),
{
    if a.len() > 0 && b.len() > 0 {
        lemma_byte_order(a.drop_first(), b.drop_first());
        assert(a =~= seq![a[0]] + a.drop_first());
        assert(b =~= seq![b[0]] + b.drop_first());
    } else if a.len() == 0 && b.len() == 0 {
        assert(a =~= b);
    }
}

/// Equality: equal are two integers, two truth values, two texts or two moments that are the same,
/// whatever the time zone of the moments; values of different kinds are not.
pub proof fn law_equality(
    l: DfExpr,
    r: DfExpr,
    a: ScalarView,
    b: ScalarView,
    row: Seq<ScalarView>,
    names: Seq<Seq<char>>,
)
    requires
        super::eval_outcome(l, row, names) == Outcome::Value(a),
        super::eval_outcome(r, row, names) == Outcome::Value(b),
    ensures
        ({
            let eq = binary(l, Operator::Eq, r, row, names);
            match (a, b) {
                (ScalarView::Int64(Some(x)), ScalarView::Int64(Some(y))) => eq == truth(
                    Some(x == y),
                ),
                (ScalarView::Boolean(Some(x)), ScalarView::Boolean(Some(y))) => eq == truth(
                    Some(x == y),
                ),
                (ScalarView::Utf8(Some(x)), ScalarView::Utf8(Some(y))) => eq == truth(
                    Some(x == y),
                ),
                (
                    ScalarView::TimestampMillisecond(Some(x), _),
                    ScalarView::TimestampMillisecond(Some(y), _),
                ) => eq == truth(Some(x == y)),
                (ScalarView::Int64(Some(_)), ScalarView::Utf8(Some(_)))
                | (ScalarView::Utf8(Some(_)), ScalarView::Int64(Some(_)))
                | (ScalarView::Boolean(Some(_)), ScalarView::Int64(Some(_)))
                | (ScalarView::Int64(Some(_)), ScalarView::Boolean(Some(_)))
                | (ScalarView::Boolean(Some(_)), ScalarView::Utf8(Some(_)))
                | (ScalarView::Utf8(Some(_)), ScalarView::Boolean(Some(_))) => eq == truth(
                    Some(false),
                ),
                _ => true,
            }
        }),
        binary(l, Operator::Eq, r, row, names) == binary(r, Operator::Eq, l, row, names),
{
}

/// `AND` and `OR`: false decides the one and true the other, whatever the other operand is; else an
/// unknown operand makes the result unknown.
pub proof fn law_connectives(
    l: DfExpr,
    r: DfExpr,
    a: Option<bool>,
    b: Option<bool>,
    row: Seq<ScalarView>,
    names: Seq<Seq<char>>,
)
    requires
        super::eval_outcome(l, row, names) == truth(a),
        super::eval_outcome(r, row, names) == truth(b),
    ensures
        ({
            let and = binary(l, Operator::And, r, row, names);
            let or = binary(l, Operator::Or, r, row, names);
            &&& a is Some && b is Some ==> and == truth(Some(a->0 && b->0)) && or == truth(
                Some(a->0 || b->0),
            )
            &&& a == Some(false) || b == Some(false) ==> and == truth(Some(false))
            &&& a == Some(true) || b == Some(true) ==> or == truth(Some(true))
            &&& a is None && b != Some(false) ==> and == truth(None)
            &&& b is None && a != Some(false) ==> and == truth(None)
            &&& a is None && b != Some(true) ==> or == truth(None)
            &&& b is None && a != Some(true) ==> or == truth(None)
        }),
{
}

/// An integer as an outcome.
pub open spec fn whole(v: int) -> Outcome {
    Outcome::Value(ScalarView::Int64(Some(v as i64)))
}

/// Arithmetic is that of the integers. A result that does not fit into sixty-four bits, and a
/// division by zero, is none.
#[verifier::rlimit(40)]
pub proof fn law_arithmetic(
    l: DfExpr,
    r: DfExpr,
    x: i64,
    y: i64,
    row: Seq<ScalarView>,
    names: Seq<Seq<char>>,
)
    requires
        super::eval_outcome(l, row, names) == whole(x as int),
        super::eval_outcome(r, row, names) == whole(y as int),
    ensures
        ({
            let fits = |v: int| i64::MIN <= v <= i64::MAX;
            let add = binary(l, Operator::Plus, r, row, names);
            let sub = binary(l, Operator::Minus, r, row, names);
            let mul = binary(l, Operator::Multiply, r, row, names);
            let div = binary(l, Operator::Divide, r, row, names);
            let rem = binary(l, Operator::Modulo, r, row, names);
            let neg = super::eval_outcome(DfExpr::Negative(Box::new(l)), row, names);
            &&& if fits(x + y) { add == whole(x + y) } else { add is Panics }
            &&& if fits(x - y) { sub == whole(x - y) } else { sub is Panics }
            &&& if fits(x * y) { mul == whole(x * y) } else { mul is Panics }
            &&& if x == i64::MIN { neg is Panics } else { neg == whole(0 - x) }
            &&& if y == 0 || (x == i64::MIN && y == -1) {
                div is Panics && rem is Panics
            } else {
                &&& div matches Outcome::Value(ScalarView::Int64(Some(q)))
                &&& rem matches Outcome::Value(ScalarView::Int64(Some(m)))
                &&& q * y + m == x
                &&& -y < m < y || y < m < -y
                &&& x >= 0 ==> m >= 0
                &&& x <= 0 ==> m <= 0
            }
        }),
{
    if y != 0 && !(x == i64::MIN && y == -1) {
        lemma_truncated(x, y);
    }
}

proof fn lemma_truncated(x: i64, y: i64)
    requires
        y != 0,
        !(x == i64::MIN && y == -1),
    ensures
        ({
            let q = predicates::truncated_quotient(x as int, y as int);
            let m = predicates::truncated_remainder(x as int, y as int);
            &&& i64::MIN <= q <= i64::MAX
            &&& i64::MIN <= m <= i64::MAX
            &&& q * y + m == x
            &&& -y < m < y || y < m < -y
            &&& x >= 0 ==> m >= 0
            &&& x <= 0 ==> m <= 0
        }),
{
    let a = predicates::magnitude(x as int);
    let b = predicates::magnitude(y as int);
    let q = predicates::truncated_quotient(x as int, y as int);
    let m = predicates::truncated_remainder(x as int, y as int);
    vstd::arithmetic::div_mod::lemma_fundamental_div_mod(a, b);
    vstd::arithmetic::div_mod::lemma_mod_bound(a, b);
    let d = a / b;
    assert(0 <= d <= a) by (nonlinear_arith)
        requires
            d == a / b,
            a >= 0,
            b >= 1,
    ;
    if x == i64::MIN && b >= 2 {
        assert(d < a) by (nonlinear_arith)
            requires
                d == a / b,
                a > 0,
                b >= 2,
        ;
    }
    assert(q * y + m == x) by (nonlinear_arith)
        requires
            a == b * d + (a % b),
            a == (if x < 0 { -x } else { x as int }),
            b == (if y < 0 { -y } else { y as int }),
            q == (if (x < 0) == (y < 0) { d } else { -d }),
            m == (if x < 0 { -(a % b) } else { a % b }),
    ;
}

/// Two texts put together have the characters of the first and then those of the second.
pub proof fn law_texts_are_put_together(
    l: DfExpr,
    r: DfExpr,
    a: Seq<char>,
    b: Seq<char>,
    row: Seq<ScalarView>,
    names: Seq<Seq<char>>,
)
    requires
        super::eval_outcome(l, row, names) == Outcome::Value(ScalarView::Utf8(Some(a))),
        super::eval_outcome(r, row, names) == Outcome::Value(ScalarView::Utf8(Some(b))),
    ensures
        binary(l, Operator::StringConcat, r, row, names) matches Outcome::Value(
            ScalarView::Utf8(Some(whole)),
        ) && whole.len() == a.len() + b.len() && whole.take(a.len() as int) == a && whole.skip(
            a.len() as int,
        ) == b,
{
    assert((a + b).take(a.len() as int) =~= a);
    assert((a + b).skip(a.len() as int) =~= b);
}

/// `x BETWEEN a AND b` is `x >= a AND x <= b`, with both ends, and `NOT BETWEEN` is its opposite.
pub proof fn law_between_is_two_comparisons(
    x: DfExpr,
    low: DfExpr,
    high: DfExpr,
    row: Seq<ScalarView>,
    names: Seq<Seq<char>>,
)
    requires
        binary(x, Operator::GtEq, low, row, names) matches Outcome::Value(_),
        binary(x, Operator::LtEq, high, row, names) matches Outcome::Value(_),
    ensures
        ({
            let above = DfExpr::BinaryExpr {
                left: Box::new(x),
                op: Operator::GtEq,
                right: Box::new(low),
            };
            let below = DfExpr::BinaryExpr {
                left: Box::new(x),
                op: Operator::LtEq,
                right: Box::new(high),
            };
            let both = DfExpr::BinaryExpr {
                left: Box::new(above),
                op: Operator::And,
                right: Box::new(below),
            };
            let within = |negated: bool|
                DfExpr::Between {
                    expr: Box::new(x),
                    negated,
                    low: Box::new(low),
                    high: Box::new(high),
                };
            &&& super::eval_outcome(within(false), row, names) == super::eval_outcome(
                both,
                row,
                names,
            )
            &&& super::eval_outcome(within(true), row, names) == super::eval_outcome(
                DfExpr::Not(Box::new(both)),
                row,
                names,
            )
        }),
{
    let above = DfExpr::BinaryExpr {
        left: Box::new(x),
        op: Operator::GtEq,
        right: Box::new(low),
    };
    let below = DfExpr::BinaryExpr {
        left: Box::new(x),
        op: Operator::LtEq,
        right: Box::new(high),
    };
    let both = DfExpr::BinaryExpr {
        left: Box::new(above),
        op: Operator::And,
        right: Box::new(below),
    };
    let v = super::eval_outcome(x, row, names)->Value_0;
    let l = super::eval_outcome(low, row, names)->Value_0;
    let h = super::eval_outcome(high, row, names)->Value_0;
    let lower = predicates::value_order(v, l, Operator::GtEq)->Ok_0;
    let upper = predicates::value_order(v, h, Operator::LtEq)->Ok_0;
    assert(super::eval_outcome(above, row, names) == truth(lower));
    assert(super::eval_outcome(below, row, names) == truth(upper));
    assert(super::eval_outcome(both, row, names) == truth(predicates::and_values(lower, upper)));
}

/// Whether a value, which is not null, is in a list: it is where it equals one of the values in it;
/// it is not known where it equals none and one of them is null; else it is not. `NOT IN` is the
/// opposite.
pub proof fn law_in_list(
    x: DfExpr,
    list: Vec<DfExpr>,
    negated: bool,
    row: Seq<ScalarView>,
    names: Seq<Seq<char>>,
)
    requires
        super::eval_outcome(x, row, names) matches Outcome::Value(_),
        !values::null_value(super::eval_outcome(x, row, names)->Value_0),
        forall|i: int|
            0 <= i < list@.len() ==> (#[trigger] super::eval_outcome(list@[i], row, names)
                matches Outcome::Value(_)),
    ensures
        ({
            let outcome = super::eval_outcome(
                DfExpr::InList { expr: Box::new(x), list, negated },
                row,
                names,
            );
            let found = exists|i: int|
                0 <= i < list@.len() && binary(x, Operator::Eq, #[trigger] list@[i], row, names)
                    == truth(Some(true));
            let unknown = exists|i: int|
                0 <= i < list@.len() && binary(x, Operator::Eq, #[trigger] list@[i], row, names)
                    == truth(None);
            outcome == truth(
                if found {
                    Some(!negated)
                } else if unknown {
                    None
                } else {
                    Some(negated)
                },
            )
        }),
{
    let v = super::eval_outcome(x, row, names)->Value_0;
    lemma_list_search(x, list@, v, list@.len(), row, names);
}

proof fn lemma_list_search(
    x: DfExpr,
    list: Seq<DfExpr>,
    v: ScalarView,
    n: nat,
    row: Seq<ScalarView>,
    names: Seq<Seq<char>>,
)
    requires
        super::eval_outcome(x, row, names) == Outcome::Value(v),
        n <= list.len(),
        forall|i: int|
            0 <= i < list.len() ==> (#[trigger] super::eval_outcome(list[i], row, names)
                matches Outcome::Value(_)),
    ensures
        ({
            let found = exists|i: int|
                0 <= i < n && binary(x, Operator::Eq, #[trigger] list[i], row, names) == truth(
                    Some(true),
                );
            let unknown = exists|i: int|
                0 <= i < n && binary(x, Operator::Eq, #[trigger] list[i], row, names) == truth(
                    None,
                );
            match super::list_search(list, v, n, row, names) {
                super::ListSearch::Found => found,
                super::ListSearch::Open(saw_null) => !found && saw_null == unknown,
                super::ListSearch::Failed(_) => false,
            }
        }),
    decreases n,
{
    if n > 0 {
        lemma_list_search(x, list, v, (n - 1) as nat, row, names);
        let last = list[n - 1];
        assert(super::eval_outcome(last, row, names) matches Outcome::Value(_));
        let eq = binary(x, Operator::Eq, last, row, names);
        match super::list_search(list, v, (n - 1) as nat, row, names) {
            super::ListSearch::Found => {
                let i = choose|i: int|
                    0 <= i < n - 1 && binary(x, Operator::Eq, #[trigger] list[i], row, names)
                        == truth(Some(true));
                assert(0 <= i < n && binary(x, Operator::Eq, list[i], row, names) == truth(
                    Some(true),
                ));
            },
            super::ListSearch::Open(saw_null) => {
                if saw_null {
                    let i = choose|i: int|
                        0 <= i < n - 1 && binary(x, Operator::Eq, #[trigger] list[i], row, names)
                            == truth(None);
                    assert(0 <= i < n && binary(x, Operator::Eq, list[i], row, names) == truth(
                        None,
                    ));
                }
                assert(binary(x, Operator::Eq, list[n - 1], row, names) == eq);
            },
            super::ListSearch::Failed(_) => {},
        }
    }
}

/// A condition of `CASE` is not met: without a base it is not true, and with one it does not equal
/// it.
pub open spec fn passed_over(
    base: Option<Box<DfExpr>>,
    when: DfExpr,
    row: Seq<ScalarView>,
    names: Seq<Seq<char>>,
) -> bool {
    match base {
        Some(value) => binary(when, Operator::Eq, *value, row, names) matches Outcome::Value(
            ScalarView::Boolean(equal),
        ) && equal != Some(true),
        None => super::eval_outcome(when, row, names) matches Outcome::Value(
            ScalarView::Boolean(holds),
        ) && holds != Some(true),
    }
}

/// A condition of `CASE` is met.
pub open spec fn met(
    base: Option<Box<DfExpr>>,
    when: DfExpr,
    row: Seq<ScalarView>,
    names: Seq<Seq<char>>,
) -> bool {
    match base {
        Some(value) => binary(when, Operator::Eq, *value, row, names) == truth(Some(true)),
        None => super::eval_outcome(when, row, names) == truth(Some(true)),
    }
}

/// `CASE` gives what stands with the first condition that is met; where none is met, what stands in
/// its `ELSE`, or a null without one.
pub proof fn law_case_takes_the_first_condition(
    base: Option<Box<DfExpr>>,
    when_then: Vec<(DfExpr, DfExpr)>,
    otherwise: Option<Box<DfExpr>>,
    row: Seq<ScalarView>,
    names: Seq<Seq<char>>,
    at: int,
)
    requires
        0 <= at <= when_then@.len(),
        base matches Some(value) ==> (super::eval_outcome(*value, row, names) matches Outcome::Value(
            _,
        )),
        forall|i: int|
            0 <= i < at ==> passed_over(base, (#[trigger] when_then@[i]).0, row, names),
        at < when_then@.len() ==> met(base, when_then@[at].0, row, names),
    ensures
        ({
            let outcome = super::eval_outcome(
                DfExpr::Case { base, when_then, otherwise },
                row,
                names,
            );
            &&& at < when_then@.len() ==> outcome == super::eval_outcome(
                when_then@[at].1,
                row,
                names,
            )
            &&& at == when_then@.len() ==> match otherwise {
                Some(other) => outcome == super::eval_outcome(*other, row, names),
                None => outcome == Outcome::Value(ScalarView::Null),
            }
        }),
{
    let value = match base {
        Some(b) => Some(super::eval_outcome(*b, row, names)->Value_0),
        None => None,
    };
    lemma_case_open(base, when_then@, value, at as nat, row, names);
    if at < when_then@.len() {
        assert(super::case_search(when_then@, value, (at + 1) as nat, row, names)
            == super::CaseSearch::Taken(super::eval_outcome(when_then@[at].1, row, names)));
        lemma_case_taken(when_then@, value, (at + 1) as nat, when_then@.len(), row, names);
    }
}

proof fn lemma_case_open(
    base: Option<Box<DfExpr>>,
    branches: Seq<(DfExpr, DfExpr)>,
    value: Option<ScalarView>,
    n: nat,
    row: Seq<ScalarView>,
    names: Seq<Seq<char>>,
)
    requires
        n <= branches.len(),
        match base {
            Some(b) => value is Some && super::eval_outcome(*b, row, names) == Outcome::Value(
                value->0,
            ),
            None => value is None,
        },
        forall|i: int| 0 <= i < n ==> passed_over(base, (#[trigger] branches[i]).0, row, names),
    ensures
        super::case_search(branches, value, n, row, names) == super::CaseSearch::Open,
    decreases n,
{
    if n > 0 {
        lemma_case_open(base, branches, value, (n - 1) as nat, row, names);
        assert(passed_over(base, branches[n - 1].0, row, names));
    }
}

proof fn lemma_case_taken(
    branches: Seq<(DfExpr, DfExpr)>,
    value: Option<ScalarView>,
    n: nat,
    m: nat,
    row: Seq<ScalarView>,
    names: Seq<Seq<char>>,
)
    requires
        n <= m <= branches.len(),
        super::case_search(branches, value, n, row, names) is Taken,
    ensures
        super::case_search(branches, value, m, row, names) == super::case_search(
            branches,
            value,
            n,
            row,
            names,
        ),
    decreases m,
{
    if n < m {
        lemma_case_taken(branches, value, n, (m - 1) as nat, row, names);
    }
}

/// A pattern of two parts matches a text that can be cut so that each part matches its piece.
#[verifier::rlimit(40)]
pub proof fn law_pattern_parts_match_pieces(value: Seq<char>, front: Seq<char>, back: Seq<char>)
    ensures
        predicates::like_matches(value, front + back) <==> exists|cut: int|
            0 <= cut <= value.len() && #[trigger] predicates::like_matches(
                value.take(cut),
                front,
            ) && predicates::like_matches(value.skip(cut), back),
    decreases value.len() + back.len(),
{
    let whole = front + back;
    if back.len() == 0 {
        assert(whole =~= front);
        if predicates::like_matches(value, whole) {
            assert(value.take(value.len() as int) =~= value);
            assert(value.skip(value.len() as int) =~= Seq::empty());
            assert(predicates::like_matches(value.take(value.len() as int), front));
        }
        assert forall|cut: int|
            0 <= cut <= value.len() && #[trigger] predicates::like_matches(
                value.take(cut),
                front,
            ) && predicates::like_matches(value.skip(cut), back) implies predicates::like_matches(
            value,
            whole,
        ) by {
            assert(value.take(cut) =~= value);
        }
    } else {
        let last = back.last();
        assert(whole.last() == last);
        assert(whole.drop_last() =~= front + back.drop_last());
        if last == '%' {
            law_pattern_parts_match_pieces(value, front, back.drop_last());
            if value.len() > 0 {
                law_pattern_parts_match_pieces(value.drop_last(), front, back);
            }
            if predicates::like_matches(value, whole) {
                if predicates::like_matches(value, front + back.drop_last()) {
                    let cut = choose|cut: int|
                        0 <= cut <= value.len() && #[trigger] predicates::like_matches(
                            value.take(cut),
                            front,
                        ) && predicates::like_matches(value.skip(cut), back.drop_last());
                    assert(predicates::like_matches(value.skip(cut), back));
                } else {
                    let shorter = value.drop_last();
                    let cut = choose|cut: int|
                        0 <= cut <= shorter.len() && #[trigger] predicates::like_matches(
                            shorter.take(cut),
                            front,
                        ) && predicates::like_matches(shorter.skip(cut), back);
                    assert(shorter.take(cut) =~= value.take(cut));
                    assert(value.skip(cut).drop_last() =~= shorter.skip(cut));
                    assert(predicates::like_matches(value.skip(cut), back));
                }
            }
            assert forall|cut: int|
                0 <= cut <= value.len() && #[trigger] predicates::like_matches(
                    value.take(cut),
                    front,
                ) && predicates::like_matches(
                    value.skip(cut),
                    back,
                ) implies predicates::like_matches(value, whole) by {
                let piece = value.skip(cut);
                if !predicates::like_matches(piece, back.drop_last()) {
                    assert(piece.len() > 0);
                    let shorter = value.drop_last();
                    assert(piece.drop_last() =~= shorter.skip(cut));
                    assert(shorter.take(cut) =~= value.take(cut));
                    assert(predicates::like_matches(shorter.take(cut), front));
                }
            }
        } else {
            if value.len() > 0 {
                law_pattern_parts_match_pieces(value.drop_last(), front, back.drop_last());
            }
            if predicates::like_matches(value, whole) {
                let shorter = value.drop_last();
                let cut = choose|cut: int|
                    0 <= cut <= shorter.len() && #[trigger] predicates::like_matches(
                        shorter.take(cut),
                        front,
                    ) && predicates::like_matches(shorter.skip(cut), back.drop_last());
                assert(shorter.take(cut) =~= value.take(cut));
                assert(value.skip(cut).drop_last() =~= shorter.skip(cut));
                assert(value.skip(cut).last() == value.last());
                assert(predicates::like_matches(value.skip(cut), back));
            }
            assert forall|cut: int|
                0 <= cut <= value.len() && #[trigger] predicates::like_matches(
                    value.take(cut),
                    front,
                ) && predicates::like_matches(
                    value.skip(cut),
                    back,
                ) implies predicates::like_matches(value, whole) by {
                let piece = value.skip(cut);
                let shorter = value.drop_last();
                assert(piece.len() > 0);
                assert(piece.last() == value.last());
                assert(piece.drop_last() =~= shorter.skip(cut));
                assert(shorter.take(cut) =~= value.take(cut));
                assert(predicates::like_matches(shorter.take(cut), front));
            }
        }
    }
}

/// What one character of a pattern matches: `_` any one character, `%` any text, and every other
/// character itself. The empty pattern matches the empty text.
pub proof fn law_pattern_characters(value: Seq<char>, c: char)
    ensures
        predicates::like_matches(value, Seq::empty()) == (value.len() == 0),
        predicates::like_matches(value, seq!['%']),
        predicates::like_matches(value, seq!['_']) == (value.len() == 1),
        c != '%' && c != '_' ==> predicates::like_matches(value, seq![c]) == (value.len() == 1
            && value[0] == c),
{
    predicates::law_percent_matches_everything(value);
    reveal_with_fuel(predicates::like_matches, 2);
    assert(seq!['_'].drop_last() =~= Seq::<char>::empty());
    assert(seq![c].drop_last() =~= Seq::<char>::empty());
    if value.len() > 0 {
        assert(value.drop_last().len() == value.len() - 1);
    }
}

/// `LIKE` of two texts holds where the pattern matches; anything else is no text or no pattern.
pub proof fn law_like(
    l: DfExpr,
    r: DfExpr,
    value: Seq<char>,
    pattern: Seq<char>,
    row: Seq<ScalarView>,
    names: Seq<Seq<char>>,
)
    requires
        super::eval_outcome(l, row, names) == Outcome::Value(ScalarView::Utf8(Some(value))),
        super::eval_outcome(r, row, names) == Outcome::Value(ScalarView::Utf8(Some(pattern))),
    ensures
        super::eval_outcome(
            DfExpr::Like { expr: Box::new(l), pattern: Box::new(r) },
            row,
            names,
        ) == truth(Some(predicates::like_matches(value, pattern))),
{
}

/// Casts keep what a value is: an integer as a text or as a moment and back is that integer, a null
/// of any type that can be cast is a null of the type asked for, a value of the type stays as it
/// is, and a text that is no integer is none.
pub proof fn law_casts_keep_values(v: i64, shown: Seq<char>, zone: Option<Seq<char>>)
    ensures
        ({
            let moment = DataType::Timestamp(TimeUnit::Millisecond, None);
            let number = ScalarView::Int64(Some(v));
            let at = ScalarView::TimestampMillisecond(Some(v), zone);
            &&& casts::cast_outcome(number, DataType::Int64) == Ok::<ScalarView, EvalError>(number)
            &&& casts::cast_outcome(at, DataType::Int64) == Ok::<ScalarView, EvalError>(number)
            &&& casts::cast_outcome(at, moment) == Ok::<ScalarView, EvalError>(at)
            &&& casts::cast_outcome(number, moment) == Ok::<ScalarView, EvalError>(
                ScalarView::TimestampMillisecond(Some(v), None),
            )
            &&& casts::cast_outcome(at, DataType::Utf8) == casts::cast_outcome(
                number,
                DataType::Utf8,
            )
            &&& casts::cast_outcome(number, DataType::Utf8) matches Ok(told) && casts::cast_outcome(
                told,
                DataType::Int64,
            ) == Ok::<ScalarView, EvalError>(number) && casts::cast_outcome(told, moment) == Ok::<
                ScalarView,
                EvalError,
            >(ScalarView::TimestampMillisecond(Some(v), None))
            &&& casts::cast_outcome(ScalarView::Utf8(Some(shown)), DataType::Utf8) == Ok::<
                ScalarView,
                EvalError,
            >(ScalarView::Utf8(Some(shown)))
            &&& casts::cast_outcome(ScalarView::Utf8(Some(shown)), DataType::Int64) == match text::i64_text(
                shown,
            ) {
                Some(read) => Ok::<ScalarView, EvalError>(ScalarView::Int64(Some(read))),
                None => Err(EvalError::CastText),
            }
            &&& casts::cast_outcome(ScalarView::Utf8(Some(shown)), moment) == match text::i64_text(
                shown,
            ) {
                Some(read) => Ok::<ScalarView, EvalError>(
                    ScalarView::TimestampMillisecond(Some(read), None),
                ),
                None => Err(EvalError::CastText),
            }
        }),
        forall|b: Option<bool>| #[trigger]
            casts::cast_outcome(ScalarView::Boolean(b), DataType::Boolean) == Ok::<
                ScalarView,
                EvalError,
            >(ScalarView::Boolean(b)),
{
    text::law_decimal_round_trip(v);
}

/// A null is cast to a null of the type asked for, which is also what `TRY_CAST` gives where a cast
/// fails.
pub proof fn law_null_casts(null: ScalarView, data_type: DataType)
    requires
        values::null_value(null),
    ensures
        casts::cast_outcome(null, data_type) matches Ok(cast) ==> values::null_value(cast),
        values::null_value(casts::null_of_type(data_type)),
        casts::cast_outcome(ScalarView::Null, data_type) matches Ok(cast) ==> cast
            == casts::null_of_type(data_type),
        data_type is Int64 ==> casts::null_of_type(data_type) is Int64,
        data_type is Utf8 ==> casts::null_of_type(data_type) is Utf8,
        data_type is Boolean ==> casts::null_of_type(data_type) is Boolean,
        data_type == DataType::Timestamp(TimeUnit::Millisecond, None) ==> casts::null_of_type(
            data_type,
        ) is TimestampMillisecond,
{
}

/// `CAST` gives the value of the type asked for or fails; `TRY_CAST` gives the same value, and
/// where `CAST` fails, a null.
pub proof fn law_casts(
    inner: DfExpr,
    value: ScalarView,
    data_type: DataType,
    row: Seq<ScalarView>,
    names: Seq<Seq<char>>,
)
    requires
        super::eval_outcome(inner, row, names) == Outcome::Value(value),
    ensures
        ({
            let cast = super::eval_outcome(
                DfExpr::Cast { expr: Box::new(inner), data_type },
                row,
                names,
            );
            let tried = super::eval_outcome(
                DfExpr::TryCast { expr: Box::new(inner), data_type },
                row,
                names,
            );
            match casts::cast_outcome(value, data_type) {
                Ok(converted) => cast == Outcome::Value(converted) && tried == cast,
                Err(error) => cast == Outcome::Error(error) && tried == Outcome::Value(
                    casts::null_of_type(data_type),
                ),
            }
        }),
{
}

/// Texts in one case: what `lower` and `upper` give of a text of ASCII has its length, and each
/// letter of it in the case asked for.
pub proof fn law_lower_and_upper(s: Seq<char>)
    requires
        vstd::utf8::is_ascii_chars(s),
    ensures
        scalar_functions::apply_outcome(
            FunctionKind::Lower,
            seq![ScalarView::Utf8(Some(s))],
        ) matches Outcome::Value(ScalarView::Utf8(Some(low))) && low.len() == s.len() && forall|
            i: int,
        |
            0 <= i < s.len() ==> (#[trigger] low[i]) == if 'A' <= s[i] <= 'Z' {
                (s[i] as u32 + 32) as char
            } else {
                s[i]
            },
        scalar_functions::apply_outcome(
            FunctionKind::Upper,
            seq![ScalarView::Utf8(Some(s))],
        ) matches Outcome::Value(ScalarView::Utf8(Some(high))) && high.len() == s.len() && forall|
            i: int,
        |
            0 <= i < s.len() ==> (#[trigger] high[i]) == if 'a' <= s[i] <= 'z' {
                (s[i] as u32 - 32) as char
            } else {
                s[i]
            },
{
}

/// The functions on one value: the length of a text is the number of its characters, the absolute
/// value of an integer is it or what is left below zero, and nulls give nulls.
pub proof fn law_length_and_abs(s: Seq<char>, v: i64)
    requires
        s.len() <= i64::MAX,
    ensures
        scalar_functions::apply_outcome(
            FunctionKind::Length,
            seq![ScalarView::Utf8(Some(s))],
        ) == whole(s.len() as int),
        v > i64::MIN ==> (scalar_functions::apply_outcome(
            FunctionKind::Abs,
            seq![ScalarView::Int64(Some(v))],
        ) matches Outcome::Value(ScalarView::Int64(Some(a))) && a >= 0 && (a == v || a == 0 - v)),
        scalar_functions::apply_outcome(
            FunctionKind::Abs,
            seq![ScalarView::Int64(Some(i64::MIN))],
        ) == Outcome::Error(EvalError::AbsOverflow),
        scalar_functions::apply_outcome(FunctionKind::Length, seq![ScalarView::Utf8(None)])
            == Outcome::Value(ScalarView::Int64(None)),
        scalar_functions::apply_outcome(FunctionKind::Abs, seq![ScalarView::Int64(None)])
            == Outcome::Value(ScalarView::Int64(None)),
        scalar_functions::apply_outcome(FunctionKind::Lower, seq![ScalarView::Utf8(None)])
            == Outcome::Value(ScalarView::Utf8(None)),
        scalar_functions::apply_outcome(FunctionKind::Upper, seq![ScalarView::Utf8(None)])
            == Outcome::Value(ScalarView::Utf8(None)),
{
}

/// `coalesce` gives the first value that is not null, and a null where all are.
pub proof fn law_coalesce(args: Seq<ScalarView>, at: int)
    requires
        args.len() > 0,
        0 <= at <= args.len(),
        forall|i: int| 0 <= i < at ==> values::null_value(#[trigger] args[i]),
        at < args.len() ==> !values::null_value(args[at]),
    ensures
        at < args.len() ==> scalar_functions::apply_outcome(FunctionKind::Coalesce, args)
            == Outcome::Value(args[at]),
        at == args.len() ==> (scalar_functions::apply_outcome(FunctionKind::Coalesce, args)
            matches Outcome::Value(value) && values::null_value(value)),
{
    lemma_first_non_null(args, at);
}

proof fn lemma_first_non_null(args: Seq<ScalarView>, at: int)
    requires
        0 <= at <= args.len(),
        forall|i: int| 0 <= i < at ==> values::null_value(#[trigger] args[i]),
        at < args.len() ==> !values::null_value(args[at]),
    ensures
        scalar_functions::first_non_null(args) == if at < args.len() {
            Some(args[at])
        } else {
            None
        },
    decreases args.len(),
{
    if args.len() > 0 && at > 0 {
        assert(values::null_value(args[0]));
        let rest = args.drop_first();
        assert forall|i: int| 0 <= i < at - 1 implies values::null_value(#[trigger] rest[i]) by {
            assert(rest[i] == args[i + 1]);
        }
        lemma_first_non_null(rest, at - 1);
    }
}

/// `nullif` gives a null where its two arguments are equal, and its first argument otherwise.
pub proof fn law_nullif(a: ScalarView, b: ScalarView)
    ensures
        scalar_functions::apply_outcome(FunctionKind::NullIf, seq![a, b]) matches Outcome::Value(
            value,
        ) && if predicates::binary_outcome(Operator::Eq, a, b) == truth(Some(true)) {
            values::null_value(value)
        } else {
            value == a
        },
{
}

/// The texts of arguments, one after the other.
pub open spec fn all_texts(pieces: Seq<Seq<char>>) -> Seq<char>
    decreases pieces.len(),
{
    if pieces.len() == 0 {
        Seq::empty()
    } else {
        all_texts(pieces.drop_last()) + pieces.last()
    }
}

/// `concat` gives its texts one after the other.
pub proof fn law_concat(pieces: Seq<Seq<char>>)
    requires
        pieces.len() > 0,
    ensures
        scalar_functions::apply_outcome(
            FunctionKind::Concat,
            Seq::new(pieces.len(), |i: int| ScalarView::Utf8(Some(pieces[i]))),
        ) == Outcome::Value(ScalarView::Utf8(Some(all_texts(pieces)))),
{
    lemma_concat(pieces, 0);
    let args = Seq::new(pieces.len(), |i: int| ScalarView::Utf8(Some(pieces[i])));
    assert(args.skip(0) =~= args);
    assert(pieces.take(0) =~= Seq::empty());
}

proof fn lemma_concat(pieces: Seq<Seq<char>>, from: int)
    requires
        0 <= from <= pieces.len(),
    ensures
        scalar_functions::concat_outcome(
            all_texts(pieces.take(from)),
            Seq::new(pieces.len(), |i: int| ScalarView::Utf8(Some(pieces[i]))).skip(from),
        ) == Outcome::Value(ScalarView::Utf8(Some(all_texts(pieces)))),
    decreases pieces.len() - from,
{
    let args = Seq::new(pieces.len(), |i: int| ScalarView::Utf8(Some(pieces[i])));
    if from == pieces.len() {
        assert(pieces.take(from) =~= pieces);
    } else {
        lemma_concat(pieces, from + 1);
        assert(args.skip(from).drop_first() =~= args.skip(from + 1));
        assert(pieces.take(from + 1).drop_last() =~= pieces.take(from));
        assert(pieces.take(from + 1).last() == pieces[from]);
        assert(args.skip(from)[0] == ScalarView::Utf8(Some(pieces[from])));
    }
}

/// The hour of a moment: a day has twenty-four of them, of which this is the one that has begun.
pub proof fn law_hour(millis: i64)
    requires
        scalar_functions::moment_in_range(millis as int),
    ensures
        scalar_functions::apply_outcome(
            FunctionKind::Hour,
            seq![ScalarView::TimestampMillisecond(Some(millis), None)],
        ) matches Outcome::Value(ScalarView::Int64(Some(hour))) && 0 <= hour < 24 && 3_600_000 * hour
            <= millis as int % 86_400_000 < 3_600_000 * (hour + 1),
{
}

/// `split_index` gives the piece at a position, counted from zero, of the pieces between the
/// occurrences of the delimiter, which joined by it are the text; there is none beyond the last.
pub proof fn law_split_index(s: Seq<char>, delimiter: Seq<char>, index: i64)
    requires
        delimiter.len() > 0,
        index >= 0,
    ensures
        ({
            let pieces = text::split_pieces(s, delimiter, 0);
            &&& text::joined(pieces, delimiter) == s
            &&& scalar_functions::apply_outcome(
                FunctionKind::SplitIndex,
                seq![
                    ScalarView::Utf8(Some(s)),
                    ScalarView::Utf8(Some(delimiter)),
                    ScalarView::Int64(Some(index)),
                ],
            ) == Outcome::Value(
                ScalarView::Utf8(
                    if index < pieces.len() {
                        Some(pieces[index as int])
                    } else {
                        None
                    },
                ),
            )
        }),
{
    text::law_split_pieces_join_again(s, delimiter, 0);
    assert(s.skip(0) =~= s);
}

/// `count_char` counts how often a text occurs, found from the left: one less than the pieces
/// between the occurrences.
pub proof fn law_count_char(s: Seq<char>, needle: Seq<char>)
    requires
        s.len() < i64::MAX,
    ensures
        ({
            let count = scalar_functions::apply_outcome(
                FunctionKind::CountChar,
                seq![ScalarView::Utf8(Some(s)), ScalarView::Utf8(Some(needle))],
            );
            &&& needle.len() == 0 ==> count == whole(0)
            &&& needle.len() > 0 ==> count == whole(occurrences_from(s, needle, 0) as int)
        }),
{
    if needle.len() > 0 {
        lemma_pieces_counted(s, needle, 0);
    }
}

/// How often a text occurs from a position on, found from the left, none within another.
pub open spec fn occurrences_from(s: Seq<char>, part: Seq<char>, from: int) -> nat
    decreases s.len() - from,
{
    if part.len() == 0 || from < 0 || from + part.len() > s.len() {
        0
    } else if s.subrange(from, from + part.len()) == part {
        1 + occurrences_from(s, part, from + part.len())
    } else {
        occurrences_from(s, part, from + 1)
    }
}

proof fn lemma_pieces_counted(s: Seq<char>, part: Seq<char>, from: int)
    requires
        part.len() > 0,
        0 <= from <= s.len(),
    ensures
        text::split_pieces(s, part, from).len() == occurrences_from(s, part, from) + 1,
        occurrences_from(s, part, from) <= s.len() - from,
    decreases s.len() - from,
{
    lemma_found_count(s, part, from);
    text::law_first_occurrence_is_found(s, part, from);
    match text::find_from(s, part, from) {
        Some(at) => {
            lemma_pieces_counted(s, part, at + part.len());
        },
        None => {},
    }
}

proof fn lemma_found_count(s: Seq<char>, part: Seq<char>, from: int)
    requires
        part.len() > 0,
        0 <= from,
    ensures
        occurrences_from(s, part, from) == match text::find_from(s, part, from) {
            Some(at) => 1 + occurrences_from(s, part, at + part.len()),
            None => 0,
        },
    decreases s.len() + 1 - from,
{
    if from + part.len() <= s.len() && s.subrange(from, from + part.len()) != part {
        lemma_found_count(s, part, from + 1);
    }
}

/// `regexp_extract` gives what the pattern captures in the text for the group asked for, and a null
/// for a group below zero or where one of its arguments is null.
pub proof fn law_regexp_extract(s: Seq<char>, pattern: Seq<char>, group: i64)
    requires
        group <= usize::MAX,
    ensures
        scalar_functions::apply_outcome(
            FunctionKind::RegexpExtract,
            seq![
                ScalarView::Utf8(Some(s)),
                ScalarView::Utf8(Some(pattern)),
                ScalarView::Int64(Some(group)),
            ],
        ) == Outcome::Value(
            ScalarView::Utf8(
                if group < 0 {
                    None
                } else {
                    scalar_functions::regex_capture(pattern, s, group as nat)
                },
            ),
        ),
{
}

/// What the names of functions stand for, in any case of their letters.
pub proof fn law_function_names(name: Seq<char>, args: Seq<ScalarView>)
    ensures
        scalar_functions::function_outcome(text::ascii_raised(name), args)
            == scalar_functions::function_outcome(name, args),
        text::ascii_lowered(name) == "lower"@ ==> scalar_functions::function_outcome(name, args)
            == scalar_functions::apply_outcome(FunctionKind::Lower, args),
        text::ascii_lowered(name) == "upper"@ ==> scalar_functions::function_outcome(name, args)
            == scalar_functions::apply_outcome(FunctionKind::Upper, args),
        text::ascii_lowered(name) == "abs"@ ==> scalar_functions::function_outcome(name, args)
            == scalar_functions::apply_outcome(FunctionKind::Abs, args),
        text::ascii_lowered(name) == "length"@ || text::ascii_lowered(name) == "char_length"@
            || text::ascii_lowered(name) == "character_length"@
            ==> scalar_functions::function_outcome(name, args) == scalar_functions::apply_outcome(
            FunctionKind::Length,
            args,
        ),
        text::ascii_lowered(name) == "coalesce"@ ==> scalar_functions::function_outcome(name, args)
            == scalar_functions::apply_outcome(FunctionKind::Coalesce, args),
        text::ascii_lowered(name) == "nullif"@ ==> scalar_functions::function_outcome(name, args)
            == scalar_functions::apply_outcome(FunctionKind::NullIf, args),
        text::ascii_lowered(name) == "concat"@ ==> scalar_functions::function_outcome(name, args)
            == scalar_functions::apply_outcome(FunctionKind::Concat, args),
        text::ascii_lowered(name) == "hour"@ ==> scalar_functions::function_outcome(name, args)
            == scalar_functions::apply_outcome(FunctionKind::Hour, args),
        text::ascii_lowered(name) == "date_format"@ ==> scalar_functions::function_outcome(
            name,
            args,
        ) == scalar_functions::apply_outcome(FunctionKind::DateFormat, args),
        text::ascii_lowered(name) == "regexp_extract"@ ==> scalar_functions::function_outcome(
            name,
            args,
        ) == scalar_functions::apply_outcome(FunctionKind::RegexpExtract, args),
        text::ascii_lowered(name) == "split_index"@ ==> scalar_functions::function_outcome(
            name,
            args,
        ) == scalar_functions::apply_outcome(FunctionKind::SplitIndex, args),
        text::ascii_lowered(name) == "count_char"@ ==> scalar_functions::function_outcome(
            name,
            args,
        ) == scalar_functions::apply_outcome(FunctionKind::CountChar, args),
        text::ascii_lowered(name) == "proctime"@ ==> scalar_functions::function_outcome(name, args)
            == scalar_functions::apply_outcome(FunctionKind::ProcTime, args),
{
    text::law_texts_in_one_case(name);
    reveal_strlit("lower");
    reveal_strlit("upper");
    reveal_strlit("length");
    reveal_strlit("char_length");
    reveal_strlit("character_length");
    reveal_strlit("abs");
    reveal_strlit("coalesce");
    reveal_strlit("nullif");
    reveal_strlit("concat");
    reveal_strlit("hour");
    reveal_strlit("date_format");
    reveal_strlit("regexp_extract");
    reveal_strlit("split_index");
    reveal_strlit("count_char");
    reveal_strlit("proctime");
    assert("lower"@[0] == 'l' && "upper"@[0] == 'u');
    assert("length"@[0] == 'l' && "nullif"@[0] == 'n' && "concat"@[0] == 'c');
    assert("coalesce"@[0] == 'c' && "proctime"@[0] == 'p');
    assert("char_length"@[0] == 'c' && "date_format"@[0] == 'd' && "split_index"@[0] == 's');
}

/// A function with another number of arguments than it takes is an error that tells how many there
/// were.
pub proof fn law_argument_counts(kind: FunctionKind, args: Seq<ScalarView>)
    requires
        match kind {
            FunctionKind::Coalesce | FunctionKind::Concat => args.len() == 0,
            FunctionKind::ProcTime => args.len() != 0,
            FunctionKind::NullIf | FunctionKind::DateFormat | FunctionKind::CountChar => args.len()
                != 2,
            FunctionKind::RegexpExtract | FunctionKind::SplitIndex => args.len() != 3,
            _ => args.len() != 1,
        },
    ensures
        scalar_functions::apply_outcome(kind, args) == Outcome::Error(
            EvalError::ArgumentCount(kind, args.len() as usize),
        ),
{
}

/// A function is called with the values of its arguments, in their order; an argument without a
/// value ends it.
pub proof fn law_functions_are_called_with_values(
    name: String,
    args: Vec<DfExpr>,
    given: Seq<ScalarView>,
    row: Seq<ScalarView>,
    names: Seq<Seq<char>>,
)
    requires
        given.len() == args@.len(),
        forall|i: int|
            0 <= i < args@.len() ==> super::eval_outcome(#[trigger] args@[i], row, names)
                == Outcome::Value(given[i]),
    ensures
        super::eval_outcome(DfExpr::ScalarFunction { name, args }, row, names)
            == scalar_functions::function_outcome(name@, given),
{
    lemma_all_values(args@, given, args@.len(), row, names);
    assert(given.take(given.len() as int) =~= given);
}

proof fn lemma_all_values(
    args: Seq<DfExpr>,
    given: Seq<ScalarView>,
    n: nat,
    row: Seq<ScalarView>,
    names: Seq<Seq<char>>,
)
    requires
        given.len() == args.len(),
        n <= args.len(),
        forall|i: int|
            0 <= i < args.len() ==> super::eval_outcome(#[trigger] args[i], row, names)
                == Outcome::Value(given[i]),
    ensures
        super::all_outcomes(args, n, row, names) == super::Outcomes::Values(given.take(n as int)),
    decreases n,
{
    if n == 0 {
        assert(given.take(0) =~= Seq::empty());
    } else {
        lemma_all_values(args, given, (n - 1) as nat, row, names);
        assert(super::eval_outcome(args[n - 1], row, names) == Outcome::Value(given[n - 1]));
        assert(given.take(n as int) =~= given.take(n - 1).push(given[n - 1]));
    }
}

/// A condition holds where its value is true; an unknown one does not hold.
pub proof fn law_conditions(value: Option<bool>)
    ensures
        super::condition_value(ScalarView::Boolean(value)) == Ok::<bool, EvalError>(
            value == Some(true),
        ),
        super::condition_value(ScalarView::Null) == Ok::<bool, EvalError>(false),
{
}

/// Negating an integer or a moment gives the one that adds up to zero with it, and negating that
/// gives it back; a null stays null, and the least integer has none.
pub proof fn law_negation(v: i64, zone: Option<Seq<char>>)
    ensures
        v != i64::MIN ==> {
            &&& super::negation_outcome(
                ScalarView::Int64(Some(v)),
            ) matches Outcome::Value(ScalarView::Int64(Some(w))) && v + w == 0
                && super::negation_outcome(ScalarView::Int64(Some(w)))
                == Outcome::Value(ScalarView::Int64(Some(v)))
            &&& super::negation_outcome(
                ScalarView::TimestampMillisecond(Some(v), zone),
            ) matches Outcome::Value(ScalarView::TimestampMillisecond(Some(w), told)) && v + w == 0
                && told == zone
        },
        v == i64::MIN ==> {
            &&& super::negation_outcome(ScalarView::Int64(Some(v))) is Panics
            &&& super::negation_outcome(
                ScalarView::TimestampMillisecond(Some(v), zone),
            ) is Panics
        },
        super::negation_outcome(ScalarView::Int64(None)) == Outcome::Value(
            ScalarView::Int64(None),
        ),
{
}

/// A moment is shown by its pattern; without a moment, without a pattern and beyond the moments
/// that have a date there is no text.
pub proof fn law_date_format(millis: i64, pattern: Seq<char>)
    ensures
        ({
            let moment = ScalarView::TimestampMillisecond(Some(millis), None);
            let shown = ScalarView::Utf8(Some(pattern));
            &&& scalar_functions::date_format_outcome(
                ScalarView::TimestampMillisecond(None, None),
                shown,
            ) == Outcome::Value(ScalarView::Utf8(None))
            &&& scalar_functions::date_format_outcome(moment, ScalarView::Utf8(None))
                == Outcome::Value(ScalarView::Utf8(None))
            &&& scalar_functions::moment_in_range(millis as int) ==> (
            scalar_functions::rendered_timestamp(
                millis,
                scalar_functions::normalized_pattern(pattern),
            ) matches Some(found) ==> scalar_functions::date_format_outcome(moment, shown)
                == Outcome::Value(ScalarView::Utf8(Some(found))))
            &&& !scalar_functions::moment_in_range(millis as int)
                ==> scalar_functions::date_format_outcome(moment, shown) == Outcome::Value(
                ScalarView::Utf8(None),
            )
        }),
{
}

} // verus!
