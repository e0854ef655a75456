use floe_executor::dataflow_plan::{Expr, OperatorNode};
use floe_executor::expression_eval::Operator;
use floe_executor::query_planner::{
    coerce_numeric_literals, convert_expr, identity_projection, index_of_column, ColumnName,
    JoinConstraint, JoinType, LogicalPlan, PlanError, QueryExpr, QueryPlanner, TableName,
};
use floe_executor::stream_types::OperatorId;
use floe_executor::values::{double_of, ScalarValue};

fn column(table: &str, name: &str) -> ColumnName {
    ColumnName {
        relation: Some(TableName { catalog: None, schema: None, table: table.to_string() }),
        name: name.to_string(),
    }
}

fn table_scan(table: &str, columns: &[&str]) -> LogicalPlan {
    LogicalPlan::TableScan {
        table_name: table.to_string(),
        schema: columns.iter().map(|name| column(table, name)).collect(),
    }
}

fn bid() -> LogicalPlan {
    table_scan("bid", &["auction", "bidder", "price"])
}

fn auction() -> LogicalPlan {
    table_scan("auction", &["id", "seller", "category"])
}

fn person() -> LogicalPlan {
    table_scan("person", &["id", "name"])
}

fn col(table: &str, name: &str) -> QueryExpr {
    QueryExpr::Column(column(table, name))
}

fn lit(value: i64) -> QueryExpr {
    QueryExpr::Literal(ScalarValue::Int64(Some(value)))
}

fn binary(left: QueryExpr, op: Operator, right: QueryExpr) -> QueryExpr {
    QueryExpr::Binary { left: Box::new(left), op, right: Box::new(right) }
}

fn alias(expr: QueryExpr) -> QueryExpr {
    QueryExpr::Alias(Box::new(expr))
}

fn project(input: LogicalPlan, exprs: Vec<QueryExpr>) -> LogicalPlan {
    let schema = (0..exprs.len())
        .map(|index| ColumnName { relation: None, name: format!("c{index}") })
        .collect();
    LogicalPlan::Projection { input: Box::new(input), exprs, schema }
}

fn filter(input: LogicalPlan, predicate: QueryExpr) -> LogicalPlan {
    LogicalPlan::Filter { input: Box::new(input), predicate }
}

fn join(join_type: JoinType) -> LogicalPlan {
    LogicalPlan::Join {
        left: Box::new(auction()),
        right: Box::new(person()),
        on: vec![(col("auction", "seller"), col("person", "id"))],
        has_filter: false,
        join_type,
        constraint: JoinConstraint::On,
        schema: vec![
            column("auction", "id"),
            column("auction", "seller"),
            column("auction", "category"),
            column("person", "id"),
            column("person", "name"),
        ],
    }
}

fn plan_filter_expr(predicate: QueryExpr) -> Expr {
    let planner = QueryPlanner::new();
    let mut dataflow = planner
        .plan(&filter(auction(), predicate), "mv_test")
        .expect("plan");
    match dataflow.operators.remove(1) {
        OperatorNode::Filter(node) => node.predicate,
        other => panic!("expected filter operator, found {other:?}"),
    }
}

#[test]
fn map_expression_eval() {
    let logical_plan = project(
        bid(),
        vec![
            alias(binary(col("bid", "auction"), Operator::Plus, lit(1i64))),
            col("bid", "price"),
        ],
    );

    let planner = QueryPlanner::new();
    let dataflow = planner.plan(&logical_plan, "mv_map_test").expect("plan");

    assert_eq!(dataflow.operators.len(), 3);
    match &dataflow.operators[1] {
        OperatorNode::MapRows(map_node) => {
            assert_eq!(map_node.expressions.len(), 2);
            match &map_node.expressions[0] {
                Expr::Add(lhs, rhs) => {
                    assert!(matches!(**lhs, Expr::Column(0)));
                    match rhs.as_ref() {
                        Expr::Literal(value) => {
                            assert_eq!(value, &ScalarValue::Int64(Some(1i64)));
                        }
                        other => panic!("expected literal, found {other:?}"),
                    }
                }
                other => panic!("unexpected expression: {other:?}"),
            }
            assert!(matches!(map_node.expressions[1], Expr::Column(2)));
        }
        other => panic!("expected map operator, found {other:?}"),
    }

    match &dataflow.operators[2] {
        OperatorNode::Materialize(node) => assert_eq!(node.view_name, "mv_map_test"),
        _ => panic!("expected terminal materialize"),
    }
}

#[test]
fn map_supports_extended_arithmetic() {
    let price = || col("bid", "price");
    let logical_plan = project(
        bid(),
        vec![
            alias(binary(price(), Operator::Minus, lit(1i64))),
            alias(binary(price(), Operator::Multiply, lit(2i64))),
            alias(binary(price(), Operator::Divide, lit(2i64))),
            alias(binary(price(), Operator::Modulo, lit(2i64))),
            alias(QueryExpr::Negative(Box::new(price()))),
        ],
    );

    let planner = QueryPlanner::new();
    let dataflow = planner
        .plan(&logical_plan, "mv_map_extended")
        .expect("plan");
    let map_node = match &dataflow.operators[1] {
        OperatorNode::MapRows(node) => node,
        other => panic!("expected map operator, found {other:?}"),
    };
    assert_eq!(map_node.expressions.len(), 5);
    assert!(matches!(map_node.expressions[0], Expr::Sub(_, _)));
    assert!(matches!(map_node.expressions[1], Expr::Mul(_, _)));
    assert!(matches!(map_node.expressions[2], Expr::Div(_, _)));
    assert!(matches!(map_node.expressions[3], Expr::Mod(_, _)));
    assert!(matches!(map_node.expressions[4], Expr::Neg(_)));
}

#[test]
fn filter_predicate() {
    let predicate = binary(
        binary(col("bid", "bidder"), Operator::Eq, lit(42i64)),
        Operator::And,
        binary(col("bid", "auction"), Operator::Eq, lit(7i64)),
    );

    let planner = QueryPlanner::new();
    let dataflow = planner
        .plan(&filter(bid(), predicate), "mv_filter_test")
        .expect("plan");

    match &dataflow.operators[1] {
        OperatorNode::Filter(filter_node) => match &filter_node.predicate {
            Expr::And(lhs, rhs) => {
                assert!(matches!(**lhs, Expr::Eq(_, _)));
                assert!(matches!(**rhs, Expr::Eq(_, _)));
            }
            other => panic!("unexpected predicate shape: {other:?}"),
        },
        _ => panic!("expected filter operator"),
    }
}

#[test]
fn filter_supports_extended_predicates() {
    let category = || col("auction", "category");
    let modulo_expr = plan_filter_expr(binary(
        binary(category(), Operator::Modulo, lit(123i64)),
        Operator::Eq,
        lit(0i64),
    ));
    match modulo_expr {
        Expr::Eq(lhs, rhs) => {
            assert!(matches!(*lhs, Expr::Mod(_, _)));
            assert!(matches!(*rhs, Expr::Literal(_)));
        }
        other => panic!("expected equality predicate, found {other:?}"),
    }

    let in_list_expr = plan_filter_expr(QueryExpr::InList {
        expr: Box::new(category()),
        list: vec![lit(10i64), lit(20i64)],
        negated: false,
    });
    match in_list_expr {
        Expr::InList { list, negated, .. } => {
            assert_eq!(list.len(), 2);
            assert!(!negated);
        }
        other => panic!("expected IN predicate, found {other:?}"),
    }

    let gt_expr = plan_filter_expr(binary(category(), Operator::Gt, lit(10i64)));
    assert!(matches!(gt_expr, Expr::Gt(_, _)));

    let gte_expr = plan_filter_expr(binary(category(), Operator::GtEq, lit(10i64)));
    assert!(matches!(gte_expr, Expr::GtEq(_, _)));

    let lt_expr = plan_filter_expr(binary(category(), Operator::Lt, lit(10i64)));
    assert!(matches!(lt_expr, Expr::Lt(_, _)));

    let lte_expr = plan_filter_expr(binary(category(), Operator::LtEq, lit(10i64)));
    assert!(matches!(lte_expr, Expr::LtEq(_, _)));

    let not_eq_expr = plan_filter_expr(binary(category(), Operator::NotEq, lit(10i64)));
    assert!(matches!(not_eq_expr, Expr::NotEq(_, _)));
}

#[test]
fn coerces_int_literal_when_paired_with_float_literal() {
    let half = QueryExpr::Literal(ScalarValue::Float64(Some(0.5_f64.to_bits())));
    let logical_plan = project(bid(), vec![alias(binary(half, Operator::Plus, lit(2)))]);

    let planner = QueryPlanner::new();
    let dataflow = planner
        .plan(&logical_plan, "mv_literal_test")
        .expect("plan");
    let map_node = match &dataflow.operators[1] {
        OperatorNode::MapRows(node) => node,
        other => panic!("expected map operator, found {other:?}"),
    };
    match &map_node.expressions[0] {
        Expr::Add(lhs, rhs) => {
            assert!(matches!(
                **lhs,
                Expr::Literal(ScalarValue::Float64(Some(_)))
            ));
            match rhs.as_ref() {
                Expr::Literal(ScalarValue::Float64(Some(bits))) => {
                    assert_eq!(f64::from_bits(*bits), 2.0);
                }
                other => panic!("expected coerced float literal, found {other:?}"),
            }
        }
        other => panic!("expected addition expression, found {other:?}"),
    }
}

#[test]
fn plans_inner_join_graph() {
    let planner = QueryPlanner::new();
    let dataflow = planner
        .plan(&join(JoinType::Inner), "mv_join_test")
        .expect("plan");

    assert_eq!(dataflow.operators.len(), 4);
    let join_node = match &dataflow.operators[2] {
        OperatorNode::Join(node) => node,
        other => panic!("expected join operator, found {other:?}"),
    };
    assert_eq!(join_node.left.operator, OperatorId(0));
    assert_eq!(join_node.right.operator, OperatorId(1));
    assert_eq!(join_node.on, vec![(1, 0)]);
}

#[test]
fn rejects_non_inner_join() {
    let planner = QueryPlanner::new();
    let err = planner
        .plan(&join(JoinType::Other), "mv_join_test")
        .unwrap_err();
    assert!(err.message().contains("only inner joins"));
}

#[test]
fn integers_become_the_nearest_double() {
    for value in [
        0,
        1,
        -1,
        3,
        i64::MAX,
        i64::MIN,
        (1 << 53) + 1,
        (1 << 53) + 3,
        -(1 << 60) - 129,
        0x7fff_ffff_ffff_fdff,
        0x7fff_ffff_ffff_fe00,
    ] {
        assert_eq!(double_of(value), (value as f64).to_bits(), "{value}");
    }
}

#[test]
fn operators_read_operators_before_them() {
    let shared = LogicalPlan::SubqueryAlias {
        input: Box::new(filter(
            bid(),
            binary(col("bid", "price"), Operator::Gt, lit(1)),
        )),
    };
    let dataflow = QueryPlanner::new()
        .plan(&project(shared, vec![col("bid", "price")]), "mv")
        .expect("plan");
    assert_eq!(dataflow.graph_id, "mv");
    assert_eq!(dataflow.root, Some(OperatorId(3)));
    match &dataflow.operators[2] {
        OperatorNode::MapRows(node) => assert_eq!(node.input.operator, OperatorId(1)),
        other => panic!("expected map operator, found {other:?}"),
    }
    match &dataflow.operators[3] {
        OperatorNode::Materialize(node) => assert_eq!(node.input.operator, OperatorId(2)),
        other => panic!("expected materialize, found {other:?}"),
    }
}

#[test]
fn every_query_without_a_dataflow_says_why() {
    let fail = |plan: &LogicalPlan| QueryPlanner::new().plan(plan, "mv").expect_err("no plan");
    assert_eq!(fail(&LogicalPlan::Unsupported), PlanError::UnsupportedNode);
    assert_eq!(
        fail(&filter(bid(), col("bid", "nosuch"))),
        PlanError::ColumnNotFound("nosuch".to_string())
    );
    assert_eq!(
        fail(&filter(
            bid(),
            binary(lit(1), Operator::StringConcat, lit(2))
        )),
        PlanError::UnsupportedOperator
    );
    assert_eq!(
        fail(&filter(bid(), QueryExpr::Unsupported)),
        PlanError::UnsupportedExpression
    );
    assert_eq!(
        fail(&filter(
            bid(),
            QueryExpr::InList { expr: Box::new(lit(1)), list: vec![], negated: false }
        )),
        PlanError::EmptyInList
    );
    let changed = |change: fn(&mut LogicalPlan)| {
        let mut plan = join(JoinType::Inner);
        change(&mut plan);
        fail(&plan)
    };
    assert_eq!(
        changed(|plan| {
            if let LogicalPlan::Join { has_filter, .. } = plan {
                *has_filter = true;
            }
        }),
        PlanError::JoinFilter
    );
    assert_eq!(
        changed(|plan| {
            if let LogicalPlan::Join { constraint, .. } = plan {
                *constraint = JoinConstraint::Using;
            }
        }),
        PlanError::NotOnJoin
    );
    assert_eq!(
        changed(|plan| {
            if let LogicalPlan::Join { on, .. } = plan {
                on[0].0 = QueryExpr::Literal(ScalarValue::Null);
            }
        }),
        PlanError::KeyNotColumn
    );
    assert!(matches!(
        changed(|plan| {
            if let LogicalPlan::Join { on, .. } = plan {
                on[0].0 = QueryExpr::Column(ColumnName {
                    relation: None,
                    name: "nosuch".to_string(),
                });
            }
        }),
        PlanError::KeyColumnNotFound(_)
    ));
}

#[test]
fn columns_are_found_by_the_qualified_name() {
    let schema = vec![column("a", "id"), column("b", "id")];
    assert_eq!(index_of_column(&schema, &column("b", "id")), Some(1));
    assert_eq!(index_of_column(&schema, &column("c", "id")), None);
    assert_eq!(
        convert_expr(&col("b", "id"), &schema),
        Ok(Expr::Column(1))
    );
    assert_eq!(
        identity_projection(2),
        vec![Expr::Column(0), Expr::Column(1)]
    );
    let (left, right) = coerce_numeric_literals(
        Expr::literal(ScalarValue::Int64(Some(2))),
        Expr::literal(ScalarValue::Float64(None)),
    );
    assert_eq!(
        left,
        Expr::literal(ScalarValue::Float64(Some(2.0_f64.to_bits())))
    );
    assert_eq!(right, Expr::literal(ScalarValue::Float64(None)));
}
