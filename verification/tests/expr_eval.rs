use floe_executor::dataflow_plan::Expr;
use floe_executor::expr_eval::{
    evaluate, evaluate_bool, evaluate_bool_with, evaluate_with, Arithmetic, ExprError, NumericValue,
};
use floe_executor::float_results::{FloatCall, FloatOrder, FloatResults};
use floe_executor::values::ScalarValue;

fn number(value: i64) -> Expr {
    Expr::literal(ScalarValue::Int64(Some(value)))
}

#[test]
fn evaluates_column_and_literal() {
    let row = vec![ScalarValue::Int64(Some(10)), ScalarValue::Int64(Some(5))];
    assert_eq!(evaluate(&Expr::column(0), &row).unwrap(), row[0]);
    let literal = ScalarValue::Int64(Some(1));
    assert_eq!(
        evaluate(&Expr::literal(literal.clone()), &row).unwrap(),
        literal
    );
}

#[test]
fn evaluates_arithmetic_and_boolean_logic() {
    let row = vec![ScalarValue::Int64(Some(10)), ScalarValue::Int64(Some(10))];
    let add_expr = Expr::Add(
        Box::new(Expr::column(0)),
        Box::new(Expr::literal(ScalarValue::Int64(Some(5)))),
    );
    assert_eq!(
        evaluate(&add_expr, &row).unwrap(),
        ScalarValue::Int64(Some(15))
    );

    let eq_expr = Expr::Eq(Box::new(Expr::column(0)), Box::new(Expr::column(1)));
    assert_eq!(evaluate_bool(&eq_expr, &row).unwrap(), true);

    let predicate = Expr::And(
        Box::new(eq_expr),
        Box::new(Expr::literal(ScalarValue::Boolean(Some(true)))),
    );
    assert!(evaluate_bool(&predicate, &row).unwrap());
}

#[test]
fn evaluates_extended_arithmetic_and_comparisons() {
    let row = vec![
        ScalarValue::Int64(Some(10)),
        ScalarValue::Int64(Some(3)),
        ScalarValue::Utf8(Some("region".into())),
    ];

    let sub_expr = Expr::Sub(Box::new(Expr::column(0)), Box::new(Expr::column(1)));
    assert_eq!(
        evaluate(&sub_expr, &row).unwrap(),
        ScalarValue::Int64(Some(7))
    );

    let mul_expr = Expr::Mul(Box::new(Expr::column(0)), Box::new(Expr::column(1)));
    assert_eq!(
        evaluate(&mul_expr, &row).unwrap(),
        ScalarValue::Int64(Some(30))
    );

    let div_expr = Expr::Div(Box::new(Expr::column(0)), Box::new(Expr::column(1)));
    assert_eq!(
        evaluate(&div_expr, &row).unwrap(),
        ScalarValue::Int64(Some(3))
    );

    let mod_expr = Expr::Mod(Box::new(Expr::column(0)), Box::new(Expr::column(1)));
    assert_eq!(
        evaluate(&mod_expr, &row).unwrap(),
        ScalarValue::Int64(Some(1))
    );

    let neg_expr = Expr::Neg(Box::new(Expr::column(1)));
    assert_eq!(
        evaluate(&neg_expr, &row).unwrap(),
        ScalarValue::Int64(Some(-3))
    );

    let lt_expr = Expr::Lt(Box::new(Expr::column(1)), Box::new(Expr::column(0)));
    assert!(evaluate_bool(&lt_expr, &row).unwrap());

    let gte_expr = Expr::GtEq(Box::new(Expr::column(0)), Box::new(Expr::column(1)));
    assert!(evaluate_bool(&gte_expr, &row).unwrap());

    let in_list_expr = Expr::InList {
        expr: Box::new(Expr::column(2)),
        list: vec![Expr::literal(ScalarValue::Utf8(Some("region".into())))],
        negated: false,
    };
    assert!(evaluate_bool(&in_list_expr, &row).unwrap());
}

#[test]
fn division_truncates_towards_zero() {
    let row = vec![];
    let quotient = Expr::Div(Box::new(number(-7)), Box::new(number(2)));
    assert_eq!(evaluate(&quotient, &row), Ok(ScalarValue::Int64(Some(-3))));
    let remainder = Expr::Mod(Box::new(number(-7)), Box::new(number(2)));
    assert_eq!(evaluate(&remainder, &row), Ok(ScalarValue::Int64(Some(-1))));
}

#[test]
fn every_failure_of_an_operator_has_its_error() {
    let row = vec![ScalarValue::Int64(None), ScalarValue::Utf8(Some("x".into()))];
    assert_eq!(
        evaluate(&Expr::column(2), &row),
        Err(ExprError::ColumnOutOfBounds(2))
    );
    assert_eq!(
        evaluate_bool(&Expr::column(1), &row),
        Err(ExprError::NotBoolean)
    );
    assert_eq!(
        evaluate(&Expr::Div(Box::new(number(1)), Box::new(number(0))), &row),
        Err(ExprError::DivisionByZero)
    );
    assert_eq!(
        evaluate(&Expr::Mod(Box::new(number(1)), Box::new(number(0))), &row),
        Err(ExprError::ModuloByZero)
    );
    assert_eq!(
        evaluate(&Expr::Add(Box::new(number(i64::MAX)), Box::new(number(1))), &row),
        Err(ExprError::Overflow)
    );
    assert_eq!(
        evaluate(&Expr::Add(Box::new(Expr::column(1)), Box::new(number(1))), &row),
        Err(ExprError::NotNumeric)
    );
    assert_eq!(
        evaluate(&Expr::Add(Box::new(Expr::column(0)), Box::new(number(1))), &row),
        Err(ExprError::NullNumeric)
    );
    assert_eq!(
        evaluate(&Expr::Mod(Box::new(Expr::column(1)), Box::new(number(1))), &row),
        Err(ExprError::NotInteger)
    );
    assert_eq!(
        evaluate(&Expr::Mod(Box::new(Expr::column(0)), Box::new(number(1))), &row),
        Err(ExprError::NullInteger)
    );
    let half = 0.5_f64.to_bits();
    let literal = Expr::literal(ScalarValue::Float64(Some(half)));
    assert_eq!(
        evaluate(&Expr::Mul(Box::new(literal), Box::new(number(2))), &row),
        Err(ExprError::Awaits(FloatCall::Compute(
            Arithmetic::Mul,
            NumericValue::Float(half),
            NumericValue::Int(2)
        )))
    );
    let not_a_number = Expr::literal(ScalarValue::Float64(Some(f64::NAN.to_bits())));
    assert_eq!(
        with_floats(&Expr::Lt(Box::new(not_a_number), Box::new(number(2))), &row),
        Err(ExprError::NotComparable)
    );
    let zero = Expr::literal(ScalarValue::Float64(Some((-0.0_f64).to_bits())));
    assert_eq!(
        evaluate(&Expr::Div(Box::new(number(2)), Box::new(zero)), &row),
        Err(ExprError::DivisionByZero)
    );
}

fn as_float(number: NumericValue) -> f64 {
    match number {
        NumericValue::Int(value) => value as f64,
        NumericValue::Float(bits) => f64::from_bits(bits),
    }
}

fn with_floats(expr: &Expr, row: &Vec<ScalarValue>) -> Result<ScalarValue, ExprError> {
    let mut results = FloatResults::new();
    loop {
        let call = match evaluate_with(expr, row, &results) {
            Err(ExprError::Awaits(call)) => call,
            other => return other,
        };
        match call {
            FloatCall::Compute(op, left, right) => {
                let (left, right) = (as_float(left), as_float(right));
                let value = match op {
                    Arithmetic::Add => left + right,
                    Arithmetic::Sub => left - right,
                    Arithmetic::Mul => left * right,
                    Arithmetic::Div => left / right,
                };
                results.note_number(call, value.to_bits());
            }
            FloatCall::Order(left, right) => {
                let (left, right) = (as_float(left), as_float(right));
                let order = if left < right {
                    FloatOrder::Less
                } else if left == right {
                    FloatOrder::Equal
                } else if left > right {
                    FloatOrder::Greater
                } else {
                    FloatOrder::Unordered
                };
                results.note_order(call, order);
            }
        }
    }
}

fn float(value: f64) -> ScalarValue {
    ScalarValue::Float64(Some(value.to_bits()))
}

#[test]
fn evaluates_float_arithmetic_and_equality() {
    let row = vec![ScalarValue::Int64(Some(4)), float(2.5)];
    let holds = |expr: &Expr| with_floats(expr, &row) == Ok(ScalarValue::Boolean(Some(true)));

    let mul_expr = Expr::Mul(
        Box::new(Expr::column(0)),
        Box::new(Expr::literal(float(0.5))),
    );
    assert_eq!(with_floats(&mul_expr, &row).unwrap(), float(2.0));

    let div_expr = Expr::Div(Box::new(Expr::column(1)), Box::new(Expr::column(0)));
    assert_eq!(with_floats(&div_expr, &row).unwrap(), float(0.625));

    let neg_expr = Expr::Neg(Box::new(Expr::column(1)));
    assert_eq!(with_floats(&neg_expr, &row).unwrap(), float(-2.5));

    let eq_expr = Expr::Eq(
        Box::new(Expr::column(0)),
        Box::new(Expr::literal(float(4.0))),
    );
    assert!(holds(&eq_expr));

    let in_list_expr = Expr::InList {
        expr: Box::new(Expr::column(0)),
        list: vec![Expr::literal(float(4.0))],
        negated: false,
    };
    assert!(holds(&in_list_expr));

    let gt_expr = Expr::Gt(Box::new(Expr::column(1)), Box::new(number(2)));
    assert!(holds(&gt_expr));
}

#[test]
fn more_results_do_not_change_what_has_a_value() {
    let row = vec![ScalarValue::Int64(Some(4)), float(2.5)];
    let short = Expr::Or(
        Box::new(Expr::Eq(Box::new(Expr::column(0)), Box::new(number(4)))),
        Box::new(Expr::Gt(Box::new(Expr::column(1)), Box::new(number(2)))),
    );
    let mut results = FloatResults::new();
    assert_eq!(evaluate_bool_with(&short, &row, &results), Ok(true));
    let call = FloatCall::Order(
        NumericValue::Float(2.5_f64.to_bits()),
        NumericValue::Int(2),
    );
    assert_eq!(results.order_of(call), None);
    results.note_order(call, FloatOrder::Greater);
    results.note_number(call, 7);
    assert_eq!(results.order_of(call), Some(FloatOrder::Greater));
    assert_eq!(results.number_of(call), Some(7));
    assert_eq!(evaluate_bool_with(&short, &row, &results), Ok(true));
}
