use floe_executor::expression::{EvalFailure, ExpressionEvaluator};
use floe_executor::expression_eval::{Column, DfExpr, EvalError, Operator, RowSchema};
use floe_executor::values::{DataType, Row, ScalarValue};

fn schema(fields: Vec<&str>) -> RowSchema {
    RowSchema::new(fields.into_iter().map(String::from).collect())
}

fn col(name: &str) -> DfExpr {
    DfExpr::Column(Column { relation: None, name: name.to_string() })
}

fn binary(left: DfExpr, op: Operator, right: DfExpr) -> DfExpr {
    DfExpr::BinaryExpr { left: Box::new(left), op, right: Box::new(right) }
}

fn eval_expr(expr: DfExpr, schema: RowSchema, row: Row) -> ScalarValue {
    ExpressionEvaluator::new(schema, expr).eval(&row).expect("eval")
}

#[test]
fn null_equals_null_is_filtered_out() {
    let schema = schema(vec!["a"]);
    let expr = binary(col("a"), Operator::Eq, col("a"));
    let row = vec![ScalarValue::Int64(None)];
    let evaluator = ExpressionEvaluator::new(schema, expr);

    let value = evaluator.eval(&row).expect("eval");
    assert!(matches!(value, ScalarValue::Boolean(None)));
    assert!(!evaluator.eval_bool(&row).expect("eval bool"));
}

#[test]
fn boolean_ops_propagate_nulls() {
    let and_expr = binary(col("a"), Operator::And, col("b"));
    let and_row = vec![ScalarValue::Boolean(Some(true)), ScalarValue::Boolean(None)];
    let and_value = eval_expr(and_expr, schema(vec!["a", "b"]), and_row);
    assert!(matches!(and_value, ScalarValue::Boolean(None)));

    let or_expr = binary(col("a"), Operator::Or, col("b"));
    let or_row = vec![
        ScalarValue::Boolean(Some(false)),
        ScalarValue::Boolean(None),
    ];
    let or_value = eval_expr(or_expr, schema(vec!["a", "b"]), or_row);
    assert!(matches!(or_value, ScalarValue::Boolean(None)));

    let not_expr = DfExpr::Not(Box::new(col("a")));
    let not_row = vec![ScalarValue::Boolean(None), ScalarValue::Boolean(Some(true))];
    let not_value = eval_expr(not_expr, schema(vec!["a", "b"]), not_row);
    assert!(matches!(not_value, ScalarValue::Boolean(None)));
}

#[test]
fn supports_in_between_try_cast_and_scalar_functions() {
    let in_list = DfExpr::InList {
        expr: Box::new(col("a")),
        list: vec![DfExpr::Literal(ScalarValue::Int64(Some(1)))],
        negated: false,
    };
    let in_value = eval_expr(
        in_list,
        schema(vec!["a", "b"]),
        vec![ScalarValue::Int64(Some(1)), ScalarValue::Utf8(None)],
    );
    assert_eq!(in_value, ScalarValue::Boolean(Some(true)));

    let between = DfExpr::Between {
        expr: Box::new(col("a")),
        negated: false,
        low: Box::new(DfExpr::Literal(ScalarValue::Int64(Some(1)))),
        high: Box::new(DfExpr::Literal(ScalarValue::Int64(Some(5)))),
    };
    let between_value = eval_expr(
        between,
        schema(vec!["a", "b"]),
        vec![ScalarValue::Int64(Some(3)), ScalarValue::Utf8(None)],
    );
    assert_eq!(between_value, ScalarValue::Boolean(Some(true)));

    let try_cast = DfExpr::TryCast { expr: Box::new(col("b")), data_type: DataType::Int64 };
    let cast_value = eval_expr(
        try_cast,
        schema(vec!["a", "b"]),
        vec![
            ScalarValue::Int64(Some(0)),
            ScalarValue::Utf8(Some("not-a-number".to_string())),
        ],
    );
    assert_eq!(cast_value, ScalarValue::Int64(None));

    let lower_expr =
        DfExpr::ScalarFunction { name: "lower".to_string(), args: vec![col("b")] };
    let lower_value = eval_expr(
        lower_expr,
        schema(vec!["a", "b"]),
        vec![
            ScalarValue::Int64(Some(0)),
            ScalarValue::Utf8(Some("HeLLo".to_string())),
        ],
    );
    assert_eq!(lower_value, ScalarValue::Utf8(Some("hello".to_string())));

    let coalesce_expr = DfExpr::ScalarFunction {
        name: "coalesce".to_string(),
        args: vec![DfExpr::Literal(ScalarValue::Utf8(None)), col("b")],
    };
    let coalesce_value = eval_expr(
        coalesce_expr,
        schema(vec!["a", "b"]),
        vec![
            ScalarValue::Int64(Some(0)),
            ScalarValue::Utf8(Some("ok".to_string())),
        ],
    );
    assert_eq!(coalesce_value, ScalarValue::Utf8(Some("ok".to_string())));
}

#[test]
fn a_failed_evaluation_says_why() {
    let missing = ExpressionEvaluator::new(schema(vec!["a"]), col("b"));
    assert_eq!(
        missing.eval(&vec![ScalarValue::Int64(Some(1))]),
        Err(EvalFailure::Error(EvalError::ColumnNotFound))
    );
    let number = ExpressionEvaluator::new(schema(vec!["a"]), col("a"));
    assert_eq!(
        number.eval_bool(&vec![ScalarValue::Int64(Some(1))]),
        Err(EvalFailure::Error(EvalError::NotBoolean))
    );
    let overflow = ExpressionEvaluator::new(
        schema(vec!["a"]),
        binary(
            col("a"),
            Operator::Plus,
            DfExpr::Literal(ScalarValue::Int64(Some(1))),
        ),
    );
    assert_eq!(
        overflow.eval(&vec![ScalarValue::Int64(Some(i64::MAX))]),
        Err(EvalFailure::Panics)
    );
}
