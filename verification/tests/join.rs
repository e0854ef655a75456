use floe_executor::expression_eval::{Column, DfExpr, Operator, RowSchema};
use floe_executor::join::JoinEvaluator;
use floe_executor::projection::ProjectionEvaluator;
use floe_executor::values::ScalarValue;

fn schema(fields: Vec<&str>) -> RowSchema {
    RowSchema::new(fields.into_iter().map(String::from).collect())
}

fn col(name: &str) -> DfExpr {
    DfExpr::Column(Column { relation: None, name: name.to_string() })
}

#[test]
fn join_key_nulls_do_not_match() {
    let schema = schema(vec!["id"]);
    let evaluator = JoinEvaluator::new(
        &schema,
        &schema,
        &schema,
        vec![(col("id"), col("id"))],
        None,
    );

    let left = vec![ScalarValue::Int64(None)];
    let right = vec![ScalarValue::Int64(Some(1))];
    assert!(!evaluator.matches(&left, &right).expect("join matches"));
}

#[test]
fn the_further_condition_sees_both_rows() {
    let condition = DfExpr::BinaryExpr {
        left: Box::new(col("price")),
        op: Operator::Gt,
        right: Box::new(col("limit")),
    };
    let evaluator = JoinEvaluator::new(
        &schema(vec!["id", "price"]),
        &schema(vec!["owner", "limit"]),
        &schema(vec!["id", "price", "owner", "limit"]),
        vec![(col("id"), col("owner"))],
        Some(condition),
    );
    let left = vec![ScalarValue::Int64(Some(7)), ScalarValue::Int64(Some(20))];
    let cheap = vec![ScalarValue::Int64(Some(7)), ScalarValue::Int64(Some(10))];
    let dear = vec![ScalarValue::Int64(Some(7)), ScalarValue::Int64(Some(30))];
    assert_eq!(evaluator.matches(&left, &cheap), Ok(true));
    assert_eq!(evaluator.matches(&left, &dear), Ok(false));
}

#[test]
fn a_projection_evaluates_its_expressions_in_order() {
    let evaluator =
        ProjectionEvaluator::new(&schema(vec!["a", "b"]), vec![col("b"), col("a"), col("b")]);
    let row = vec![ScalarValue::Int64(Some(1)), ScalarValue::Boolean(Some(true))];
    assert_eq!(
        evaluator.project(&row),
        Ok(vec![
            ScalarValue::Boolean(Some(true)),
            ScalarValue::Int64(Some(1)),
            ScalarValue::Boolean(Some(true)),
        ])
    );
}
