//! Plans of queries as dataflows: operators over rows whose columns are known by position.

use vstd::prelude::*;

use crate::dataflow_plan::{
    DataflowPlan, Expr, FilterNode, JoinNode, MapNode, MaterializeNode, OperatorNode, ScanNode,
};
use crate::expr_eval;
use crate::expr_eval::ExprError;
use crate::expression_eval::predicates;
use crate::expression_eval::Operator;
use crate::float_results::FloatMath;
use crate::stream_types::{OperatorId, OutputPort};
use crate::text::same_text;
use crate::values;
use crate::values::{double_of, ScalarValue, ScalarView};

verus! {

/// The name of a table, as far as it is qualified.
#[derive(Debug, PartialEq, Eq)]
pub struct TableName {
    pub catalog: Option<String>,
    pub schema: Option<String>,
    pub table: String,
}

/// The name of a column, as far as it is qualified.
#[derive(Debug, PartialEq, Eq)]
pub struct ColumnName {
    pub relation: Option<TableName>,
    pub name: String,
}

/// An expression of a query.
#[derive(Debug, PartialEq, Eq)]
pub enum QueryExpr {
    Alias(Box<QueryExpr>),
    Column(ColumnName),
    Literal(ScalarValue),
    Binary { left: Box<QueryExpr>, op: Operator, right: Box<QueryExpr> },
    Negative(Box<QueryExpr>),
    InList { expr: Box<QueryExpr>, list: Vec<QueryExpr>, negated: bool },
    /// An expression that dataflows do not know.
    Unsupported,
}

/// Which rows a join keeps.
#[derive(Clone, Copy, Debug, PartialEq, Eq, Structural)]
pub enum JoinType {
    Inner,
    Other,
}

/// How the keys of a join are given.
#[derive(Clone, Copy, Debug, PartialEq, Eq, Structural)]
pub enum JoinConstraint {
    On,
    Using,
}

/// The plan of a query.
#[derive(Debug, PartialEq, Eq)]
pub enum LogicalPlan {
    TableScan { table_name: String, schema: Vec<ColumnName> },
    Projection { input: Box<LogicalPlan>, exprs: Vec<QueryExpr>, schema: Vec<ColumnName> },
    Filter { input: Box<LogicalPlan>, predicate: QueryExpr },
    Join {
        left: Box<LogicalPlan>,
        right: Box<LogicalPlan>,
        on: Vec<(QueryExpr, QueryExpr)>,
        has_filter: bool,
        join_type: JoinType,
        constraint: JoinConstraint,
        schema: Vec<ColumnName>,
    },
    SubqueryAlias { input: Box<LogicalPlan> },
    /// A node that dataflows do not know.
    Unsupported,
}

/// Why a query has no dataflow.
#[derive(Debug, PartialEq, Eq)]
pub enum PlanError {
    UnsupportedNode,
    NotInnerJoin,
    JoinFilter,
    NotOnJoin,
    ColumnNotFound(String),
    UnsupportedOperator,
    EmptyInList,
    UnsupportedExpression,
    KeyNotColumn,
    KeyColumnNotFound(String),
}

/// What an error stands for.
pub enum PlanFault {
    UnsupportedNode,
    NotInnerJoin,
    JoinFilter,
    NotOnJoin,
    ColumnNotFound(Seq<char>),
    UnsupportedOperator,
    EmptyInList,
    UnsupportedExpression,
    KeyNotColumn,
    KeyColumnNotFound(Seq<char>),
}

impl View for PlanError {
    type V = PlanFault;

    open spec fn view(&self) -> PlanFault {
        match *self {
            PlanError::UnsupportedNode => PlanFault::UnsupportedNode,
            PlanError::NotInnerJoin => PlanFault::NotInnerJoin,
            PlanError::JoinFilter => PlanFault::JoinFilter,
            PlanError::NotOnJoin => PlanFault::NotOnJoin,
            PlanError::ColumnNotFound(name) => PlanFault::ColumnNotFound(name@),
            PlanError::UnsupportedOperator => PlanFault::UnsupportedOperator,
            PlanError::EmptyInList => PlanFault::EmptyInList,
            PlanError::UnsupportedExpression => PlanFault::UnsupportedExpression,
            PlanError::KeyNotColumn => PlanFault::KeyNotColumn,
            PlanError::KeyColumnNotFound(name) => PlanFault::KeyColumnNotFound(name@),
        }
    }
}

/// The text of a fault, without the name of a column.
pub open spec fn fault_text(fault: PlanFault) -> Seq<char> {
    match fault {
        PlanFault::UnsupportedNode => "Unsupported logical plan node"@,
        PlanFault::NotInnerJoin => "only inner joins are supported in phase 2"@,
        PlanFault::JoinFilter => "non-equi join filters are not supported"@,
        PlanFault::NotOnJoin => "only ON joins are supported"@,
        PlanFault::ColumnNotFound(name) => "column not found"@,
        PlanFault::UnsupportedOperator => "unsupported binary operator"@,
        PlanFault::EmptyInList => "IN() list must contain at least one value"@,
        PlanFault::UnsupportedExpression => "unsupported expression in MVP"@,
        PlanFault::KeyNotColumn => "join keys must be column references"@,
        PlanFault::KeyColumnNotFound(name) => "column not found in join input"@,
    }
}

impl PlanError {
    /// The text of the error, without the name of a column.
    pub fn message(&self) -> (text: String)
        ensures
            text@ == fault_text(self@),
    {
        String::from_str(
            match self {
                PlanError::UnsupportedNode => "Unsupported logical plan node",
                PlanError::NotInnerJoin => "only inner joins are supported in phase 2",
                PlanError::JoinFilter => "non-equi join filters are not supported",
                PlanError::NotOnJoin => "only ON joins are supported",
                PlanError::ColumnNotFound(_) => "column not found",
                PlanError::UnsupportedOperator => "unsupported binary operator",
                PlanError::EmptyInList => "IN() list must contain at least one value",
                PlanError::UnsupportedExpression => "unsupported expression in MVP",
                PlanError::KeyNotColumn => "join keys must be column references",
                PlanError::KeyColumnNotFound(_) => "column not found in join input",
            },
        )
    }
}

/// Two parts of a name do not contradict each other: one is not given, or they are the same.
pub open spec fn parts_agree(a: Option<String>, b: Option<String>) -> bool {
    match (a, b) {
        (Some(x), Some(y)) => x@ == y@,
        _ => true,
    }
}

/// Two names stand for the same table as far as both are qualified.
pub open spec fn same_table(a: TableName, b: TableName) -> bool {
    a.table@ == b.table@ && parts_agree(a.schema, b.schema) && parts_agree(a.catalog, b.catalog)
}

/// A field is the one that a column asks for; a column without a relation asks for a name only.
pub open spec fn names_field(column: ColumnName, field: ColumnName) -> bool {
    column.name@ == field.name@ && match (column.relation, field.relation) {
        (Some(wanted), Some(relation)) => same_table(wanted, relation),
        (Some(wanted), None) => false,
        (None, _) => true,
    }
}

/// The first of the first `n` fields that a column asks for.
pub open spec fn field_within(schema: Seq<ColumnName>, column: ColumnName, n: nat) -> Option<nat>
    decreases n,
{
    if n == 0 {
        None
    } else {
        match field_within(schema, column, (n - 1) as nat) {
            Some(at) => Some(at),
            None => if names_field(column, schema[n - 1]) {
                Some((n - 1) as nat)
            } else {
                None
            },
        }
    }
}

/// The position of the column that is asked for.
pub open spec fn column_at(schema: Seq<ColumnName>, column: ColumnName) -> Option<nat> {
    field_within(schema, column, schema.len())
}

proof fn lemma_field_within(schema: Seq<ColumnName>, column: ColumnName, n: nat, m: nat)
    requires
        n <= m,
        field_within(schema, column, n) is Some,
    ensures
        field_within(schema, column, m) == field_within(schema, column, n),
    decreases m,
{
    if n < m {
        lemma_field_within(schema, column, n, (m - 1) as nat);
    }
}

fn agree(a: &Option<String>, b: &Option<String>) -> (same: bool)
    ensures
        same == parts_agree(*a, *b),
{
    match (a, b) {
        (Some(x), Some(y)) => same_text(x.as_str(), y.as_str()),
        _ => true,
    }
}

/// The position of the column that is asked for: the first field of that name whose relation does
/// not contradict the one asked for.
pub fn index_of_column(schema: &Vec<ColumnName>, column: &ColumnName) -> (found: Option<usize>)
    ensures
        match found {
            Some(at) => column_at(schema@, *column) == Some(at as nat) && at < schema@.len(),
            None => column_at(schema@, *column) is None,
        },
{
    let mut i: usize = 0;
    while i < schema.len()
        invariant
            i <= schema@.len(),
            field_within(schema@, *column, i as nat) is None,
        decreases schema@.len() - i,
    {
        let field: &ColumnName = &schema[i];
        let named: bool = same_text(column.name.as_str(), field.name.as_str()) && match (
            &column.relation,
            &field.relation,
        ) {
            (Some(wanted), Some(relation)) => same_text(
                wanted.table.as_str(),
                relation.table.as_str(),
            ) && agree(&wanted.schema, &relation.schema) && agree(
                &wanted.catalog,
                &relation.catalog,
            ),
            (Some(_), None) => false,
            (None, _) => true,
        };
        if named {
            proof {
                lemma_field_within(schema@, *column, (i + 1) as nat, schema@.len());
            }
            return Some(i);
        }
        i = i + 1;
    }
    None
}

/// Dataflows know the operator.
pub open spec fn known_operator(op: Operator) -> bool {
    op != Operator::StringConcat && op != Operator::Unsupported
}

/// Why an expression has no place in a dataflow over rows of this schema; the first reason in the
/// order in which the parts are read.
pub open spec fn expr_fault(expr: QueryExpr, schema: Seq<ColumnName>) -> Option<PlanFault>
    decreases expr, 0nat,
{
    match expr {
        QueryExpr::Alias(inner) => expr_fault(*inner, schema),
        QueryExpr::Column(column) => match column_at(schema, column) {
            Some(at) => None,
            None => Some(PlanFault::ColumnNotFound(column.name@)),
        },
        QueryExpr::Literal(value) => None,
        QueryExpr::Binary { left, op, right } => match expr_fault(*left, schema) {
            Some(fault) => Some(fault),
            None => match expr_fault(*right, schema) {
                Some(fault) => Some(fault),
                None => if known_operator(op) {
                    None
                } else {
                    Some(PlanFault::UnsupportedOperator)
                },
            },
        },
        QueryExpr::Negative(inner) => expr_fault(*inner, schema),
        QueryExpr::InList { expr, list, negated } => if list@.len() == 0 {
            Some(PlanFault::EmptyInList)
        } else {
            match expr_fault(*expr, schema) {
                Some(fault) => Some(fault),
                None => list_fault(list@, schema, list@.len()),
            }
        },
        QueryExpr::Unsupported => Some(PlanFault::UnsupportedExpression),
    }
}

/// The first fault of the first `n` expressions.
pub open spec fn list_fault(list: Seq<QueryExpr>, schema: Seq<ColumnName>, n: nat) -> Option<
    PlanFault,
>
    decreases list, n,
{
    if n == 0 || n > list.len() {
        None
    } else {
        match list_fault(list, schema, (n - 1) as nat) {
            Some(fault) => Some(fault),
            None => expr_fault(list[n - 1], schema),
        }
    }
}

/// A constant behind its other names.
pub open spec fn constant(expr: QueryExpr) -> Option<ScalarValue>
    decreases expr,
{
    match expr {
        QueryExpr::Alias(inner) => constant(*inner),
        QueryExpr::Literal(value) => Some(value),
        _ => None,
    }
}

/// The integer constant that meets a floating point constant in an expression.
pub open spec fn meets_float(expr: QueryExpr, other: QueryExpr) -> Option<Option<i64>> {
    match (constant(expr), constant(other)) {
        (Some(ScalarValue::Int64(value)), Some(ScalarValue::Float64(_))) => Some(value),
        _ => None,
    }
}

/// The floating point constant for an integer constant.
pub open spec fn float_literal(value: Option<i64>) -> Expr {
    Expr::Literal(
        ScalarValue::Float64(
            match value {
                Some(v) => Some(values::double_bits(v as int) as u64),
                None => None,
            },
        ),
    )
}

/// Two operands under an operator.
pub open spec fn combined(op: Operator, left: Expr, right: Expr) -> Expr {
    let left = Box::new(left);
    let right = Box::new(right);
    match op {
        Operator::Eq => Expr::Eq(left, right),
        Operator::NotEq => Expr::NotEq(left, right),
        Operator::Lt => Expr::Lt(left, right),
        Operator::LtEq => Expr::LtEq(left, right),
        Operator::Gt => Expr::Gt(left, right),
        Operator::GtEq => Expr::GtEq(left, right),
        Operator::And => Expr::And(left, right),
        Operator::Or => Expr::Or(left, right),
        Operator::Plus => Expr::Add(left, right),
        Operator::Minus => Expr::Sub(left, right),
        Operator::Multiply => Expr::Mul(left, right),
        Operator::Divide => Expr::Div(left, right),
        _ => Expr::Mod(left, right),
    }
}

/// The left operand of a dataflow expression.
pub open spec fn left_operand(expr: Expr) -> Expr {
    match expr {
        Expr::Eq(left, _) => *left,
        Expr::NotEq(left, _) => *left,
        Expr::Lt(left, _) => *left,
        Expr::LtEq(left, _) => *left,
        Expr::Gt(left, _) => *left,
        Expr::GtEq(left, _) => *left,
        Expr::And(left, _) => *left,
        Expr::Or(left, _) => *left,
        Expr::Add(left, _) => *left,
        Expr::Sub(left, _) => *left,
        Expr::Mul(left, _) => *left,
        Expr::Div(left, _) => *left,
        Expr::Mod(left, _) => *left,
        other => other,
    }
}

/// The right operand of a dataflow expression.
pub open spec fn right_operand(expr: Expr) -> Expr {
    match expr {
        Expr::Eq(_, right) => *right,
        Expr::NotEq(_, right) => *right,
        Expr::Lt(_, right) => *right,
        Expr::LtEq(_, right) => *right,
        Expr::Gt(_, right) => *right,
        Expr::GtEq(_, right) => *right,
        Expr::And(_, right) => *right,
        Expr::Or(_, right) => *right,
        Expr::Add(_, right) => *right,
        Expr::Sub(_, right) => *right,
        Expr::Mul(_, right) => *right,
        Expr::Div(_, right) => *right,
        Expr::Mod(_, right) => *right,
        other => other,
    }
}

/// A dataflow expression is what an expression comes to over rows of this schema: columns by
/// position, other names left out, and an integer constant that meets a floating point constant
/// turned into one.
pub open spec fn converts(expr: QueryExpr, schema: Seq<ColumnName>, out: Expr) -> bool
    decreases expr, 0nat,
{
    match expr {
        QueryExpr::Alias(inner) => converts(*inner, schema, out),
        QueryExpr::Column(column) => match column_at(schema, column) {
            Some(at) => at <= usize::MAX && out == Expr::Column(at as usize),
            None => false,
        },
        QueryExpr::Literal(value) => out == Expr::Literal(value),
        QueryExpr::Binary { left, op, right } => {
            &&& known_operator(op)
            &&& out == combined(op, left_operand(out), right_operand(out))
            &&& match meets_float(*left, *right) {
                Some(value) => left_operand(out) == float_literal(value),
                None => converts(*left, schema, left_operand(out)),
            }
            &&& match meets_float(*right, *left) {
                Some(value) => right_operand(out) == float_literal(value),
                None => converts(*right, schema, right_operand(out)),
            }
        },
        QueryExpr::Negative(inner) => match out {
            Expr::Neg(converted) => converts(*inner, schema, *converted),
            _ => false,
        },
        QueryExpr::InList { expr, list, negated } => match out {
            Expr::InList { expr: needle, list: values, negated: kept } => converts(
                *expr,
                schema,
                *needle,
            ) && list@.len() > 0 && values@.len() == list@.len() && list_converts(
                list@,
                schema,
                values@,
                list@.len(),
            ) && kept == negated,
            _ => false,
        },
        QueryExpr::Unsupported => false,
    }
}

/// The first `n` dataflow expressions are what the expressions come to.
pub open spec fn list_converts(
    list: Seq<QueryExpr>,
    schema: Seq<ColumnName>,
    out: Seq<Expr>,
    n: nat,
) -> bool
    decreases list, n,
{
    if n == 0 || n > list.len() {
        true
    } else {
        list_converts(list, schema, out, (n - 1) as nat) && converts(
            list[n - 1],
            schema,
            out[n - 1],
        )
    }
}

/// The constant that a dataflow expression is.
pub open spec fn literal_of(expr: Expr) -> Option<ScalarValue> {
    match expr {
        Expr::Literal(value) => Some(value),
        _ => None,
    }
}

/// A constant of a query is a constant of the dataflow, and nothing else is.
proof fn lemma_constant(expr: QueryExpr, schema: Seq<ColumnName>, out: Expr)
    requires
        converts(expr, schema, out),
    ensures
        literal_of(out) == constant(expr),
    decreases expr,
{
    match expr {
        QueryExpr::Alias(inner) => {
            lemma_constant(*inner, schema, out);
        },
        _ => {},
    }
}

/// The floating point constant for an integer constant.
fn int_literal_to_float(value: Option<i64>) -> (expr: Expr)
    ensures
        expr == float_literal(value),
{
    Expr::Literal(
        ScalarValue::Float64(
            match value {
                Some(v) => Some(double_of(v)),
                None => None,
            },
        ),
    )
}

/// Turns an integer constant that meets a floating point constant into one.
pub fn coerce_numeric_literals(left: Expr, right: Expr) -> (pair: (Expr, Expr))
    ensures
        pair == (match (literal_of(left), literal_of(right)) {
            (Some(ScalarValue::Float64(_)), Some(ScalarValue::Int64(value))) => (
                left,
                float_literal(value),
            ),
            (Some(ScalarValue::Int64(value)), Some(ScalarValue::Float64(_))) => (
                float_literal(value),
                right,
            ),
            _ => (left, right),
        }),
{
    let swaps: Option<(bool, Option<i64>)> = match (&left, &right) {
        (
            Expr::Literal(ScalarValue::Float64(_)),
            Expr::Literal(ScalarValue::Int64(value)),
        ) => Some((false, *value)),
        (
            Expr::Literal(ScalarValue::Int64(value)),
            Expr::Literal(ScalarValue::Float64(_)),
        ) => Some((true, *value)),
        _ => None,
    };
    match swaps {
        Some((first, value)) => if first {
            (int_literal_to_float(value), right)
        } else {
            (left, int_literal_to_float(value))
        },
        None => (left, right),
    }
}

/// The expression that a query expression comes to over rows of a schema.
pub fn convert_expr(expr: &QueryExpr, schema: &Vec<ColumnName>) -> (result: Result<Expr, PlanError>)
    ensures
        match result {
            Ok(out) => expr_fault(*expr, schema@) is None && converts(*expr, schema@, out),
            Err(error) => expr_fault(*expr, schema@) == Some(error@),
        },
    decreases *expr, 0nat,
{
    match expr {
        QueryExpr::Alias(inner) => convert_expr(inner, schema),
        QueryExpr::Column(column) => match index_of_column(schema, column) {
            Some(at) => Ok(Expr::Column(at)),
            None => Err(PlanError::ColumnNotFound(column.name.clone())),
        },
        QueryExpr::Literal(value) => Ok(Expr::Literal(value.clone())),
        QueryExpr::Binary { left, op, right } => {
            let first = match convert_expr(left, schema) {
                Ok(first) => first,
                Err(error) => {
                    return Err(error);
                },
            };
            let second = match convert_expr(right, schema) {
                Ok(second) => second,
                Err(error) => {
                    return Err(error);
                },
            };
            proof {
                lemma_constant(**left, schema@, first);
                lemma_constant(**right, schema@, second);
            }
            let (l, r) = coerce_numeric_literals(first, second);
            let l = Box::new(l);
            let r = Box::new(r);
            match *op {
                Operator::Eq => Ok(Expr::Eq(l, r)),
                Operator::NotEq => Ok(Expr::NotEq(l, r)),
                Operator::Lt => Ok(Expr::Lt(l, r)),
                Operator::LtEq => Ok(Expr::LtEq(l, r)),
                Operator::Gt => Ok(Expr::Gt(l, r)),
                Operator::GtEq => Ok(Expr::GtEq(l, r)),
                Operator::And => Ok(Expr::And(l, r)),
                Operator::Or => Ok(Expr::Or(l, r)),
                Operator::Plus => Ok(Expr::Add(l, r)),
                Operator::Minus => Ok(Expr::Sub(l, r)),
                Operator::Multiply => Ok(Expr::Mul(l, r)),
                Operator::Divide => Ok(Expr::Div(l, r)),
                Operator::Modulo => Ok(Expr::Mod(l, r)),
                Operator::StringConcat => Err(PlanError::UnsupportedOperator),
                Operator::Unsupported => Err(PlanError::UnsupportedOperator),
            }
        },
        QueryExpr::Negative(inner) => match convert_expr(inner, schema) {
            Ok(child) => Ok(Expr::Neg(Box::new(child))),
            Err(error) => Err(error),
        },
        QueryExpr::InList { expr: needle, list, negated } => {
            if list.len() == 0 {
                return Err(PlanError::EmptyInList);
            }
            let converted = match convert_expr(needle, schema) {
                Ok(converted) => converted,
                Err(error) => {
                    return Err(error);
                },
            };
            match convert_list(list, schema) {
                Ok(values) => Ok(
                    Expr::InList { expr: Box::new(converted), list: values, negated: *negated },
                ),
                Err(error) => Err(error),
            }
        },
        QueryExpr::Unsupported => Err(PlanError::UnsupportedExpression),
    }
}

proof fn lemma_list_fault_stays(list: Seq<QueryExpr>, schema: Seq<ColumnName>, n: nat, m: nat)
    requires
        n <= m <= list.len(),
        list_fault(list, schema, n) is Some,
    ensures
        list_fault(list, schema, m) == list_fault(list, schema, n),
    decreases m,
{
    if n < m {
        lemma_list_fault_stays(list, schema, n, (m - 1) as nat);
    }
}

proof fn lemma_list_converts_kept(
    list: Seq<QueryExpr>,
    schema: Seq<ColumnName>,
    out: Seq<Expr>,
    more: Expr,
    n: nat,
)
    requires
        n <= out.len(),
        list_converts(list, schema, out, n),
    ensures
        list_converts(list, schema, out.push(more), n),
    decreases n,
{
    if n > 0 && n <= list.len() {
        lemma_list_converts_kept(list, schema, out, more, (n - 1) as nat);
    }
}

/// The expressions that query expressions come to.
fn convert_list(list: &Vec<QueryExpr>, schema: &Vec<ColumnName>) -> (result: Result<
    Vec<Expr>,
    PlanError,
>)
    ensures
        match result {
            Ok(out) => list_fault(list@, schema@, list@.len()) is None && out@.len() == list@.len()
                && list_converts(list@, schema@, out@, list@.len()),
            Err(error) => list_fault(list@, schema@, list@.len()) == Some(error@),
        },
    decreases list@, list@.len(),
{
    let mut out: Vec<Expr> = Vec::new();
    let mut i: usize = 0;
    while i < list.len()
        invariant
            i <= list@.len(),
            out@.len() == i,
            list_fault(list@, schema@, i as nat) is None,
            list_converts(list@, schema@, out@, i as nat),
        decreases list@.len() - i,
    {
        let ghost before = out@;
        match convert_expr(&list[i], schema) {
            Ok(converted) => {
                out.push(converted);
                proof {
                    lemma_list_converts_kept(list@, schema@, before, converted, i as nat);
                }
            },
            Err(error) => {
                proof {
                    lemma_list_fault_stays(list@, schema@, (i + 1) as nat, list@.len());
                }
                return Err(error);
            },
        }
        i = i + 1;
    }
    Ok(out)
}

/// The columns of the rows that a plan gives.
pub open spec fn stream_schema(plan: LogicalPlan) -> Seq<ColumnName>
    decreases plan,
{
    match plan {
        LogicalPlan::TableScan { table_name, schema } => schema@,
        LogicalPlan::Projection { input, exprs, schema } => schema@,
        LogicalPlan::Filter { input, predicate } => stream_schema(*input),
        LogicalPlan::Join { schema, .. } => schema@,
        LogicalPlan::SubqueryAlias { input } => stream_schema(*input),
        LogicalPlan::Unsupported => Seq::empty(),
    }
}

/// The number of operators that a plan comes to.
pub open spec fn operator_count(plan: LogicalPlan) -> nat
    decreases plan,
{
    match plan {
        LogicalPlan::TableScan { table_name, schema } => 1,
        LogicalPlan::Projection { input, exprs, schema } => operator_count(*input) + 1,
        LogicalPlan::Filter { input, predicate } => operator_count(*input) + 1,
        LogicalPlan::Join { left, right, .. } => operator_count(*left) + operator_count(*right) + 1,
        LogicalPlan::SubqueryAlias { input } => operator_count(*input),
        LogicalPlan::Unsupported => 0,
    }
}

/// The columns of both sides of each join can be counted.
pub open spec fn columns_fit(plan: LogicalPlan) -> bool
    decreases plan,
{
    match plan {
        LogicalPlan::Projection { input, exprs, schema } => columns_fit(*input),
        LogicalPlan::Filter { input, predicate } => columns_fit(*input),
        LogicalPlan::Join { left, right, .. } => columns_fit(*left) && columns_fit(*right)
            && stream_schema(*left).len() + stream_schema(*right).len() <= usize::MAX,
        LogicalPlan::SubqueryAlias { input } => columns_fit(*input),
        _ => true,
    }
}

/// Why an expression is no key of a join.
pub open spec fn key_fault(expr: QueryExpr, schema: Seq<ColumnName>) -> Option<PlanFault> {
    match expr {
        QueryExpr::Column(column) => match column_at(schema, column) {
            Some(at) => None,
            None => Some(PlanFault::KeyColumnNotFound(column.name@)),
        },
        _ => Some(PlanFault::KeyNotColumn),
    }
}

/// The position of the column that is a key of a join.
pub open spec fn key_at(expr: QueryExpr, schema: Seq<ColumnName>) -> Option<nat> {
    match expr {
        QueryExpr::Column(column) => column_at(schema, column),
        _ => None,
    }
}

/// The first fault of the first `n` pairs of keys.
pub open spec fn keys_fault(
    on: Seq<(QueryExpr, QueryExpr)>,
    left: Seq<ColumnName>,
    right: Seq<ColumnName>,
    n: nat,
) -> Option<PlanFault>
    decreases n,
{
    if n == 0 {
        None
    } else {
        match keys_fault(on, left, right, (n - 1) as nat) {
            Some(fault) => Some(fault),
            None => match key_fault(on[n - 1].0, left) {
                Some(fault) => Some(fault),
                None => key_fault(on[n - 1].1, right),
            },
        }
    }
}

/// Why a plan has no dataflow; the first reason in the order in which its parts are read.
pub open spec fn plan_fault(plan: LogicalPlan) -> Option<PlanFault>
    decreases plan,
{
    match plan {
        LogicalPlan::TableScan { table_name, schema } => None,
        LogicalPlan::Projection { input, exprs, schema } => match plan_fault(*input) {
            Some(fault) => Some(fault),
            None => list_fault(exprs@, stream_schema(*input), exprs@.len()),
        },
        LogicalPlan::Filter { input, predicate } => match plan_fault(*input) {
            Some(fault) => Some(fault),
            None => expr_fault(predicate, stream_schema(*input)),
        },
        LogicalPlan::Join { left, right, on, has_filter, join_type, constraint, schema } =>
            if join_type != JoinType::Inner {
                Some(PlanFault::NotInnerJoin)
            } else if has_filter {
                Some(PlanFault::JoinFilter)
            } else if constraint != JoinConstraint::On {
                Some(PlanFault::NotOnJoin)
            } else {
                match plan_fault(*left) {
                    Some(fault) => Some(fault),
                    None => match plan_fault(*right) {
                        Some(fault) => Some(fault),
                        None => keys_fault(
                            on@,
                            stream_schema(*left),
                            stream_schema(*right),
                            on@.len(),
                        ),
                    },
                }
            },
        LogicalPlan::SubqueryAlias { input } => plan_fault(*input),
        LogicalPlan::Unsupported => Some(PlanFault::UnsupportedNode),
    }
}

/// The only output of the operator at a position.
pub open spec fn port_of(position: int) -> OutputPort {
    OutputPort { operator: OperatorId(position as usize), port_index: 0 }
}

/// The pairs of positions are those of the pairs of keys.
pub open spec fn keys_planned(
    on: Seq<(QueryExpr, QueryExpr)>,
    left: Seq<ColumnName>,
    right: Seq<ColumnName>,
    keys: Seq<(usize, usize)>,
) -> bool {
    keys.len() == on.len() && forall|i: int|
        0 <= i < keys.len() ==> key_at(on[i].0, left) == Some((#[trigger] keys[i]).0 as nat)
            && key_at(on[i].1, right) == Some(keys[i].1 as nat)
}

/// The expressions give each column as it is.
pub open spec fn identity_columns(projection: Seq<Expr>, count: nat) -> bool {
    projection.len() == count && forall|i: int|
        0 <= i < count ==> (#[trigger] projection[i]) == Expr::Column(i as usize)
}

/// Operators are what a plan comes to from position `base` on: the operators of its inputs, from
/// left to right, and then its own, which reads their last ones.
pub open spec fn planned(plan: LogicalPlan, base: int, ops: Seq<OperatorNode>) -> bool
    decreases plan,
{
    ops.len() == operator_count(plan) && match plan {
        LogicalPlan::TableScan { table_name, schema } => ops[0] matches OperatorNode::Scan(node)
            && node.source_name@ == table_name@ && node.output == port_of(base),
        LogicalPlan::Projection { input, exprs, schema } => planned(*input, base, ops.drop_last())
            && (ops.last() matches OperatorNode::MapRows(node) && node.input == port_of(
            base + ops.len() - 2,
        ) && node.output == port_of(base + ops.len() - 1) && node.expressions@.len()
            == exprs@.len() && list_converts(
            exprs@,
            stream_schema(*input),
            node.expressions@,
            exprs@.len(),
        )),
        LogicalPlan::Filter { input, predicate } => planned(*input, base, ops.drop_last()) && (
        ops.last() matches OperatorNode::Filter(node) && node.input == port_of(
            base + ops.len() - 2,
        ) && node.output == port_of(base + ops.len() - 1) && converts(
            predicate,
            stream_schema(*input),
            node.predicate,
        )),
        LogicalPlan::Join { left, right, on, .. } => {
            let middle = operator_count(*left) as int;
            &&& planned(*left, base, ops.take(middle))
            &&& planned(*right, base + middle, ops.subrange(middle, ops.len() - 1))
            &&& ops.last() matches OperatorNode::Join(node) && node.left == port_of(
                base + middle - 1,
            ) && node.right == port_of(base + ops.len() - 2) && node.output == port_of(
                base + ops.len() - 1,
            ) && keys_planned(on@, stream_schema(*left), stream_schema(*right), node.on@)
                && identity_columns(
                node.projection@,
                stream_schema(*left).len() + stream_schema(*right).len(),
            )
        },
        LogicalPlan::SubqueryAlias { input } => planned(*input, base, ops),
        LogicalPlan::Unsupported => false,
    }
}

proof fn lemma_keys_fault_stays(
    on: Seq<(QueryExpr, QueryExpr)>,
    left: Seq<ColumnName>,
    right: Seq<ColumnName>,
    n: nat,
    m: nat,
)
    requires
        n <= m,
        keys_fault(on, left, right, n) is Some,
    ensures
        keys_fault(on, left, right, m) == keys_fault(on, left, right, n),
    decreases m,
{
    if n < m {
        lemma_keys_fault_stays(on, left, right, n, (m - 1) as nat);
    }
}

/// The position of the column that is a key of a join.
fn extract_column_index(expr: &QueryExpr, schema: &Vec<ColumnName>) -> (result: Result<
    usize,
    PlanError,
>)
    ensures
        match result {
            Ok(at) => key_fault(*expr, schema@) is None && key_at(*expr, schema@) == Some(
                at as nat,
            ),
            Err(error) => key_fault(*expr, schema@) == Some(error@),
        },
{
    match expr {
        QueryExpr::Column(column) => match index_of_column(schema, column) {
            Some(at) => Ok(at),
            None => Err(PlanError::KeyColumnNotFound(column.name.clone())),
        },
        _ => Err(PlanError::KeyNotColumn),
    }
}

/// The positions of the columns that are the keys of a join.
fn build_join_keys(
    on: &Vec<(QueryExpr, QueryExpr)>,
    left: &Vec<ColumnName>,
    right: &Vec<ColumnName>,
) -> (result: Result<Vec<(usize, usize)>, PlanError>)
    ensures
        match result {
            Ok(keys) => keys_fault(on@, left@, right@, on@.len()) is None && keys_planned(
                on@,
                left@,
                right@,
                keys@,
            ),
            Err(error) => keys_fault(on@, left@, right@, on@.len()) == Some(error@),
        },
{
    let mut keys: Vec<(usize, usize)> = Vec::new();
    let mut i: usize = 0;
    while i < on.len()
        invariant
            i <= on@.len(),
            keys@.len() == i,
            keys_fault(on@, left@, right@, i as nat) is None,
            forall|j: int|
                0 <= j < keys@.len() ==> key_at(on@[j].0, left@) == Some(
                    (#[trigger] keys@[j]).0 as nat,
                ) && key_at(on@[j].1, right@) == Some(keys@[j].1 as nat),
        decreases on@.len() - i,
    {
        let first: usize = match extract_column_index(&on[i].0, left) {
            Ok(at) => at,
            Err(error) => {
                proof {
                    lemma_keys_fault_stays(on@, left@, right@, (i + 1) as nat, on@.len());
                }
                return Err(error);
            },
        };
        let second: usize = match extract_column_index(&on[i].1, right) {
            Ok(at) => at,
            Err(error) => {
                proof {
                    lemma_keys_fault_stays(on@, left@, right@, (i + 1) as nat, on@.len());
                }
                return Err(error);
            },
        };
        keys.push((first, second));
        i = i + 1;
    }
    Ok(keys)
}

/// Expressions that give each of `count` columns as it is.
pub fn identity_projection(count: usize) -> (projection: Vec<Expr>)
    ensures
        identity_columns(projection@, count as nat),
{
    let mut projection: Vec<Expr> = Vec::new();
    let mut i: usize = 0;
    while i < count
        invariant
            i <= count,
            projection@.len() == i,
            forall|j: int| 0 <= j < i ==> (#[trigger] projection@[j]) == Expr::Column(j as usize),
        decreases count - i,
    {
        projection.push(Expr::Column(i));
        i = i + 1;
    }
    projection
}

/// Builds the operators of a dataflow.
struct PlanBuilder {
    plan: DataflowPlan,
}

impl PlanBuilder {
    /// Appends the operators that a plan comes to, and tells the output of the last one and the
    /// columns of its rows.
    fn plan_node<'a>(&mut self, plan: &'a LogicalPlan) -> (result: Result<
        (OutputPort, &'a Vec<ColumnName>),
        PlanError,
    >)
        requires
            columns_fit(*plan),
        ensures
            final(self).plan.graph_id == old(self).plan.graph_id,
            final(self).plan.root == old(self).plan.root,
            match result {
                Ok((output, schema)) => {
                    let before = old(self).plan.operators@;
                    let after = final(self).plan.operators@;
                    &&& plan_fault(*plan) is None
                    &&& schema@ == stream_schema(*plan)
                    &&& before.len() <= after.len()
                    &&& after.take(before.len() as int) == before
                    &&& planned(*plan, before.len() as int, after.skip(before.len() as int))
                    &&& output == port_of(after.len() - 1)
                    &&& before.len() < after.len()
                },
                Err(error) => plan_fault(*plan) == Some(error@),
            },
        decreases *plan,
    {
        let ghost before = self.plan.operators@;
        let ghost base = before.len() as int;
        match plan {
            LogicalPlan::TableScan { table_name, schema } => {
                let output = OutputPort::new(OperatorId(self.plan.operators.len()), 0);
                self.plan.add_operator(
                    OperatorNode::Scan(ScanNode { source_name: table_name.clone(), output }),
                );
                assert(self.plan.operators@.take(base) =~= before);
                Ok((output, schema))
            },
            LogicalPlan::Projection { input, exprs, schema } => {
                let (source, columns) = match self.plan_node(input) {
                    Ok(stream) => stream,
                    Err(error) => {
                        return Err(error);
                    },
                };
                let expressions = match convert_list(exprs, columns) {
                    Ok(expressions) => expressions,
                    Err(error) => {
                        return Err(error);
                    },
                };
                let ghost middle = self.plan.operators@;
                let output = OutputPort::new(OperatorId(self.plan.operators.len()), 0);
                self.plan.add_operator(
                    OperatorNode::MapRows(MapNode { input: source, output, expressions }),
                );
                proof {
                    let after = self.plan.operators@;
                    assert(after.take(base) =~= middle.take(base));
                    assert(after.skip(base).drop_last() =~= middle.skip(base));
                }
                Ok((output, schema))
            },
            LogicalPlan::Filter { input, predicate } => {
                let (source, columns) = match self.plan_node(input) {
                    Ok(stream) => stream,
                    Err(error) => {
                        return Err(error);
                    },
                };
                let converted = match convert_expr(predicate, columns) {
                    Ok(converted) => converted,
                    Err(error) => {
                        return Err(error);
                    },
                };
                let ghost middle = self.plan.operators@;
                let output = OutputPort::new(OperatorId(self.plan.operators.len()), 0);
                self.plan.add_operator(
                    OperatorNode::Filter(
                        FilterNode { input: source, output, predicate: converted },
                    ),
                );
                proof {
                    let after = self.plan.operators@;
                    assert(after.take(base) =~= middle.take(base));
                    assert(after.skip(base).drop_last() =~= middle.skip(base));
                }
                Ok((output, columns))
            },
            LogicalPlan::Join { left, right, on, has_filter, join_type, constraint, schema } => {
                if *join_type != JoinType::Inner {
                    return Err(PlanError::NotInnerJoin);
                }
                if *has_filter {
                    return Err(PlanError::JoinFilter);
                }
                if *constraint != JoinConstraint::On {
                    return Err(PlanError::NotOnJoin);
                }
                let (left_port, left_schema) = match self.plan_node(left) {
                    Ok(stream) => stream,
                    Err(error) => {
                        return Err(error);
                    },
                };
                let ghost first = self.plan.operators@;
                let (right_port, right_schema) = match self.plan_node(right) {
                    Ok(stream) => stream,
                    Err(error) => {
                        return Err(error);
                    },
                };
                let ghost second = self.plan.operators@;
                let keys = match build_join_keys(on, left_schema, right_schema) {
                    Ok(keys) => keys,
                    Err(error) => {
                        return Err(error);
                    },
                };
                let projection = identity_projection(left_schema.len() + right_schema.len());
                let output = OutputPort::new(OperatorId(self.plan.operators.len()), 0);
                self.plan.add_operator(
                    OperatorNode::Join(
                        JoinNode {
                            left: left_port,
                            right: right_port,
                            output,
                            on: keys,
                            projection,
                        },
                    ),
                );
                proof {
                    let after = self.plan.operators@;
                    let ops = after.skip(base);
                    let count = operator_count(**left) as int;
                    assert(second.take(base) =~= second.take(first.len() as int).take(base));
                    assert(after.take(base) =~= second.take(base));
                    assert(ops.take(count) =~= second.take(first.len() as int).skip(base));
                    assert(ops.subrange(count, ops.len() - 1) =~= second.skip(first.len() as int));
                }
                Ok((output, schema))
            },
            LogicalPlan::SubqueryAlias { input } => self.plan_node(input),
            LogicalPlan::Unsupported => Err(PlanError::UnsupportedNode),
        }
    }
}

/// Makes dataflows of queries.
#[derive(Clone, Copy, Debug, PartialEq, Eq, Structural)]
pub struct QueryPlanner;

impl QueryPlanner {
    /// A planner.
    pub fn new() -> (planner: Self)
        ensures
            planner == QueryPlanner,
    {
        QueryPlanner
    }

    /// The dataflow that keeps the rows of a query as a materialized view: the operators of its
    /// plan and, as the last one and root, the view.
    pub fn plan(&self, logical_plan: &LogicalPlan, view_name: &str) -> (result: Result<
        DataflowPlan,
        PlanError,
    >)
        requires
            columns_fit(*logical_plan),
        ensures
            match result {
                Ok(plan) => {
                    let ops = plan.operators@;
                    &&& plan_fault(*logical_plan) is None
                    &&& plan.graph_id@ == view_name@
                    &&& ops.len() == operator_count(*logical_plan) + 1
                    &&& planned(*logical_plan, 0, ops.drop_last())
                    &&& ops.last() matches OperatorNode::Materialize(node) && node.input == port_of(
                        ops.len() - 2,
                    ) && node.view_name@ == view_name@
                    &&& plan.root == Some(OperatorId((ops.len() - 1) as usize))
                },
                Err(error) => plan_fault(*logical_plan) == Some(error@),
            },
    {
        let mut builder = PlanBuilder { plan: DataflowPlan::new(String::from_str(view_name)) };
        let (input, _) = match builder.plan_node(logical_plan) {
            Ok(stream) => stream,
            Err(error) => {
                return Err(error);
            },
        };
        let ghost ops = builder.plan.operators@;
        let root = builder.plan.add_operator(
            OperatorNode::Materialize(
                MaterializeNode { input, view_name: String::from_str(view_name) },
            ),
        );
        builder.plan.set_root(root);
        assert(ops.skip(0) =~= ops);
        assert(builder.plan.operators@.drop_last() =~= ops);
        Ok(builder.plan)
    }
}

/// A port belongs to an operator in a range of positions.
pub open spec fn port_within(port: OutputPort, low: int, high: int) -> bool {
    low <= port.operator.0 < high
}

/// The operator at a position tells that position as its output and reads operators from `base`
/// up to that position only.
pub open spec fn in_place(node: OperatorNode, base: int, position: int) -> bool {
    match node {
        OperatorNode::Scan(node) => node.output == port_of(position),
        OperatorNode::MapRows(node) => node.output == port_of(position) && port_within(
            node.input,
            base,
            position,
        ),
        OperatorNode::Filter(node) => node.output == port_of(position) && port_within(
            node.input,
            base,
            position,
        ),
        OperatorNode::Join(node) => node.output == port_of(position) && port_within(
            node.left,
            base,
            position,
        ) && port_within(node.right, base, position),
        OperatorNode::Materialize(node) => port_within(node.input, base, position),
    }
}

/// Every operator of a dataflow reads operators before it, and tells its own position as its
/// output.
pub proof fn law_operators_read_backwards(plan: LogicalPlan, base: int, ops: Seq<OperatorNode>)
    requires
        planned(plan, base, ops),
        0 <= base,
        base + ops.len() <= usize::MAX,
    ensures
        ops.len() > 0,
        forall|i: int| 0 <= i < ops.len() ==> in_place(#[trigger] ops[i], base, base + i),
    decreases plan,
{
    match plan {
        LogicalPlan::TableScan { .. } => {},
        LogicalPlan::Projection { input, .. } => {
            let first = ops.drop_last();
            law_operators_read_backwards(*input, base, first);
            assert forall|i: int| 0 <= i < ops.len() implies in_place(
                #[trigger] ops[i],
                base,
                base + i,
            ) by {
                if i < first.len() {
                    assert(ops[i] == first[i]);
                }
            }
        },
        LogicalPlan::Filter { input, .. } => {
            let first = ops.drop_last();
            law_operators_read_backwards(*input, base, first);
            assert forall|i: int| 0 <= i < ops.len() implies in_place(
                #[trigger] ops[i],
                base,
                base + i,
            ) by {
                if i < first.len() {
                    assert(ops[i] == first[i]);
                }
            }
        },
        LogicalPlan::Join { left, right, .. } => {
            let middle = operator_count(*left) as int;
            let first = ops.take(middle);
            let second = ops.subrange(middle, ops.len() - 1);
            law_operators_read_backwards(*left, base, first);
            law_operators_read_backwards(*right, base + middle, second);
            assert forall|i: int| 0 <= i < ops.len() implies in_place(
                #[trigger] ops[i],
                base,
                base + i,
            ) by {
                if i < middle {
                    assert(ops[i] == first[i]);
                } else if i < ops.len() - 1 {
                    assert(ops[i] == second[i - middle]);
                    assert(in_place(second[i - middle], base + middle, base + middle + (i - middle)));
                }
            }
        },
        LogicalPlan::SubqueryAlias { input } => {
            law_operators_read_backwards(*input, base, ops);
        },
        LogicalPlan::Unsupported => {},
    }
}

/// What an operator of a query means for two values: the order and arithmetic of integers, logic,
/// and the equality of integers, truth values and texts. Where nothing is said of the values, there
/// is none.
pub open spec fn operator_meaning(
    op: Operator,
    a: ScalarView,
    b: ScalarView,
) -> Option<ScalarView> {
    match (a, b) {
        (ScalarView::Int64(Some(x)), ScalarView::Int64(Some(y))) => {
            let within = |v: int|
                if i64::MIN <= v <= i64::MAX {
                    Some(ScalarView::Int64(Some(v as i64)))
                } else {
                    None
                };
            match op {
                Operator::Eq => Some(ScalarView::Boolean(Some(x == y))),
                Operator::NotEq => Some(ScalarView::Boolean(Some(x != y))),
                Operator::Lt => Some(ScalarView::Boolean(Some(x < y))),
                Operator::LtEq => Some(ScalarView::Boolean(Some(x <= y))),
                Operator::Gt => Some(ScalarView::Boolean(Some(x > y))),
                Operator::GtEq => Some(ScalarView::Boolean(Some(x >= y))),
                Operator::Plus => within(x + y),
                Operator::Minus => within(x - y),
                Operator::Multiply => within(x * y),
                Operator::Divide => if y > 0 && x >= 0 {
                    within(x as int / y as int)
                } else {
                    None
                },
                Operator::Modulo => if y > 0 && x >= 0 {
                    within(x as int % y as int)
                } else {
                    None
                },
                _ => None,
            }
        },
        (ScalarView::Boolean(Some(x)), ScalarView::Boolean(Some(y))) => match op {
            Operator::Eq => Some(ScalarView::Boolean(Some(x == y))),
            Operator::NotEq => Some(ScalarView::Boolean(Some(x != y))),
            Operator::And => Some(ScalarView::Boolean(Some(x && y))),
            Operator::Or => Some(ScalarView::Boolean(Some(x || y))),
            _ => None,
        },
        (ScalarView::Utf8(Some(x)), ScalarView::Utf8(Some(y))) => match op {
            Operator::Eq => Some(ScalarView::Boolean(Some(x == y))),
            Operator::NotEq => Some(ScalarView::Boolean(Some(x != y))),
            _ => None,
        },
        _ => None,
    }
}

/// A field has the name that a column asks for and, where the column is qualified, the relation
/// too.
pub open spec fn is_asked_for(column: ColumnName, field: ColumnName) -> bool {
    &&& field.name@ == column.name@
    &&& column.relation matches Some(wanted) ==> {
        &&& field.relation matches Some(relation)
        &&& relation.table@ == wanted.table@
        &&& relation.schema is Some && wanted.schema is Some ==> relation.schema->0@
            == wanted.schema->0@
        &&& relation.catalog is Some && wanted.catalog is Some ==> relation.catalog->0@
            == wanted.catalog->0@
    }
}

/// The column that is found is the first field that has the name asked for and that the relation
/// asked for does not rule out; where none is found, there is no such field.
pub proof fn law_column_is_the_first_asked_for(schema: Seq<ColumnName>, column: ColumnName)
    ensures
        match column_at(schema, column) {
            Some(at) => {
                &&& at < schema.len()
                &&& is_asked_for(column, schema[at as int])
                &&& forall|i: int| 0 <= i < at ==> !is_asked_for(column, #[trigger] schema[i])
            },
            None => forall|i: int|
                0 <= i < schema.len() ==> !is_asked_for(column, #[trigger] schema[i]),
        },
{
    lemma_first_asked_for(schema, column, schema.len());
}

proof fn lemma_first_asked_for(schema: Seq<ColumnName>, column: ColumnName, n: nat)
    requires
        n <= schema.len(),
    ensures
        match field_within(schema, column, n) {
            Some(at) => {
                &&& at < n
                &&& is_asked_for(column, schema[at as int])
                &&& forall|i: int| 0 <= i < at ==> !is_asked_for(column, #[trigger] schema[i])
            },
            None => forall|i: int| 0 <= i < n ==> !is_asked_for(column, #[trigger] schema[i]),
        },
    decreases n,
{
    if n > 0 {
        lemma_first_asked_for(schema, column, (n - 1) as nat);
        assert(names_field(column, schema[n - 1]) == is_asked_for(column, schema[n - 1]));
    }
}

/// What a query expression means on a row, where something is said of it: the value of a column is
/// that of the row at the field asked for, and a value is in a list if it equals one in it.
pub open spec fn meaning(
    expr: QueryExpr,
    schema: Seq<ColumnName>,
    row: Seq<ScalarView>,
) -> Option<ScalarView>
    decreases expr, 0nat,
{
    match expr {
        QueryExpr::Alias(inner) => meaning(*inner, schema, row),
        QueryExpr::Column(column) => match column_at(schema, column) {
            Some(at) => if at < row.len() && at <= usize::MAX {
                Some(row[at as int])
            } else {
                None
            },
            None => None,
        },
        QueryExpr::Literal(value) => Some(value@),
        QueryExpr::Binary { left, op, right } => match (
            meaning(*left, schema, row),
            meaning(*right, schema, row),
        ) {
            (Some(a), Some(b)) => operator_meaning(op, a, b),
            _ => None,
        },
        QueryExpr::Negative(inner) => match meaning(*inner, schema, row) {
            Some(ScalarView::Int64(Some(v))) => if v == i64::MIN {
                None
            } else {
                Some(ScalarView::Int64(Some((0 - v) as i64)))
            },
            _ => None,
        },
        QueryExpr::InList { expr, list, negated } => match meaning(*expr, schema, row) {
            Some(needle) => match found_in(list@, schema, row, needle, list@.len()) {
                Some(found) => Some(ScalarView::Boolean(Some(found != negated))),
                None => None,
            },
            None => None,
        },
        QueryExpr::Unsupported => None,
    }
}

/// Whether a value equals one of the first `n` values in a list.
pub open spec fn found_in(
    list: Seq<QueryExpr>,
    schema: Seq<ColumnName>,
    row: Seq<ScalarView>,
    needle: ScalarView,
    n: nat,
) -> Option<bool>
    decreases list, n,
{
    if n == 0 || n > list.len() {
        Some(false)
    } else {
        match (
            found_in(list, schema, row, needle, (n - 1) as nat),
            meaning(list[n - 1], schema, row),
        ) {
            (Some(before), Some(value)) => match operator_meaning(Operator::Eq, needle, value) {
                Some(ScalarView::Boolean(Some(equal))) => Some(before || equal),
                _ => None,
            },
            _ => None,
        }
    }
}

proof fn lemma_constant_meaning(expr: QueryExpr, schema: Seq<ColumnName>, row: Seq<ScalarView>)
    ensures
        constant(expr) matches Some(value) ==> meaning(expr, schema, row) == Some(value@),
    decreases expr,
{
    match expr {
        QueryExpr::Alias(inner) => lemma_constant_meaning(*inner, schema, row),
        _ => {},
    }
}

/// A planned expression computes what the query expression means: on every row on which something
/// is said of the query expression, evaluating the expression of the dataflow gives its value.
#[verifier::rlimit(40)]
pub proof fn law_planned_expression_computes_its_meaning(
    expr: QueryExpr,
    schema: Seq<ColumnName>,
    out: Expr,
    row: Seq<ScalarView>,
    floats: FloatMath,
)
    requires
        converts(expr, schema, out),
    ensures
        meaning(expr, schema, row) matches Some(value) ==> expr_eval::outcome_with(out, row, floats)
            == Ok::<ScalarView, ExprError>(value),
    decreases expr, 0nat,
{
    match expr {
        QueryExpr::Alias(inner) => {
            law_planned_expression_computes_its_meaning(*inner, schema, out, row, floats);
        },
        QueryExpr::Binary { left, op, right } => {
            if meaning(expr, schema, row) is Some {
                lemma_constant_meaning(*left, schema, row);
                lemma_constant_meaning(*right, schema, row);
                let l = left_operand(out);
                let r = right_operand(out);
                law_planned_expression_computes_its_meaning(*left, schema, l, row, floats);
                law_planned_expression_computes_its_meaning(*right, schema, r, row, floats);
                let a = meaning(*left, schema, row)->0;
                let b = meaning(*right, schema, row)->0;
                if let (ScalarView::Int64(Some(x)), ScalarView::Int64(Some(y))) = (a, b) {
                    expr_eval::law_comparisons_order_integers(l, r, x, y, row, floats);
                    expr_eval::law_integer_arithmetic(l, r, x, y, row, floats);
                    if y > 0 && x >= 0 {
                        lemma_quotient(x as int, y as int);
                    }
                }
            }
        },
        QueryExpr::Negative(inner) => {
            if let Expr::Neg(converted) = out {
                law_planned_expression_computes_its_meaning(
                    *inner,
                    schema,
                    *converted,
                    row,
                    floats,
                );
            }
        },
        QueryExpr::InList { expr: needle, list, negated } => {
            if let Expr::InList { expr: out_needle, list: values, negated: kept } = out {
                law_planned_expression_computes_its_meaning(
                    *needle,
                    schema,
                    *out_needle,
                    row,
                    floats,
                );
                if let Some(value) = meaning(*needle, schema, row) {
                    lemma_found_in(list@, schema, values@, row, value, list@.len(), floats);
                }
            }
        },
        _ => {},
    }
}

proof fn lemma_quotient(x: int, y: int)
    requires
        0 <= x <= i64::MAX,
        0 < y <= i64::MAX,
    ensures
        predicates::truncated_quotient(x, y) == x / y,
        predicates::truncated_remainder(x, y) == x % y,
        0 <= x / y <= x,
        0 <= x % y < y,
{
    vstd::arithmetic::div_mod::lemma_div_pos_is_pos(x, y);
    vstd::arithmetic::div_mod::lemma_div_is_ordered_by_denominator(x, 1, y);
    vstd::arithmetic::div_mod::lemma_mod_bound(x, y);
}

proof fn lemma_found_in(
    list: Seq<QueryExpr>,
    schema: Seq<ColumnName>,
    out: Seq<Expr>,
    row: Seq<ScalarView>,
    needle: ScalarView,
    n: nat,
    floats: FloatMath,
)
    requires
        n <= list.len(),
        out.len() == list.len(),
        list_converts(list, schema, out, n),
    ensures
        found_in(list, schema, row, needle, n) matches Some(found) ==> expr_eval::list_contains(
            out,
            needle,
            n,
            row,
            floats,
        ) == Ok::<bool, ExprError>(found),
    decreases list, n,
{
    if n > 0 {
        lemma_found_in(list, schema, out, row, needle, (n - 1) as nat, floats);
        law_planned_expression_computes_its_meaning(list[n - 1], schema, out[n - 1], row, floats);
    }
}

/// The values of planned expressions, whichever of the expressions that a query expression comes to
/// they are.
#[verifier::rlimit(40)]
proof fn lemma_planned_alike(
    expr: QueryExpr,
    schema: Seq<ColumnName>,
    a: Expr,
    b: Expr,
    row: Seq<ScalarView>,
    floats: FloatMath,
)
    requires
        converts(expr, schema, a),
        converts(expr, schema, b),
    ensures
        expr_eval::outcome_with(a, row, floats) == expr_eval::outcome_with(b, row, floats),
    decreases expr, 0nat,
{
    match expr {
        QueryExpr::Alias(inner) => lemma_planned_alike(*inner, schema, a, b, row, floats),
        QueryExpr::Binary { left, op, right } => {
            if meets_float(*left, *right) is None {
                lemma_planned_alike(
                    *left,
                    schema,
                    left_operand(a),
                    left_operand(b),
                    row,
                    floats,
                );
            }
            if meets_float(*right, *left) is None {
                lemma_planned_alike(
                    *right,
                    schema,
                    right_operand(a),
                    right_operand(b),
                    row,
                    floats,
                );
            }
        },
        QueryExpr::Negative(inner) => {
            if let (Expr::Neg(x), Expr::Neg(y)) = (a, b) {
                lemma_planned_alike(*inner, schema, *x, *y, row, floats);
            }
        },
        QueryExpr::InList { expr: needle, list, negated } => {
            if let (
                Expr::InList { expr: x, list: xs, negated: _ },
                Expr::InList { expr: y, list: ys, negated: _ },
            ) = (a, b) {
                lemma_planned_alike(*needle, schema, *x, *y, row, floats);
                if let Ok(value) = expr_eval::outcome_with(*x, row, floats) {
                    lemma_lists_alike(list@, schema, xs@, ys@, value, list@.len(), row, floats);
                }
            }
        },
        _ => {},
    }
}

proof fn lemma_lists_alike(
    list: Seq<QueryExpr>,
    schema: Seq<ColumnName>,
    a: Seq<Expr>,
    b: Seq<Expr>,
    needle: ScalarView,
    n: nat,
    row: Seq<ScalarView>,
    floats: FloatMath,
)
    requires
        n <= list.len(),
        a.len() == list.len(),
        b.len() == list.len(),
        list_converts(list, schema, a, n),
        list_converts(list, schema, b, n),
    ensures
        expr_eval::list_contains(a, needle, n, row, floats) == expr_eval::list_contains(
            b,
            needle,
            n,
            row,
            floats,
        ),
    decreases list, n,
{
    if n > 0 {
        lemma_lists_alike(list, schema, a, b, needle, (n - 1) as nat, row, floats);
        lemma_planned_alike(list[n - 1], schema, a[n - 1], b[n - 1], row, floats);
    }
}

/// The plans of `x IN (..)` and of `x NOT IN (..)` are opposite on every row on which they have a
/// value, and have one on the same rows.
pub proof fn law_in_and_not_in_are_planned_as_opposites(
    needle: QueryExpr,
    list: Vec<QueryExpr>,
    schema: Seq<ColumnName>,
    inside: Expr,
    outside: Expr,
    row: Seq<ScalarView>,
    floats: FloatMath,
)
    requires
        converts(
            QueryExpr::InList { expr: Box::new(needle), list, negated: false },
            schema,
            inside,
        ),
        converts(
            QueryExpr::InList { expr: Box::new(needle), list, negated: true },
            schema,
            outside,
        ),
    ensures
        match expr_eval::outcome_with(inside, row, floats) {
            Ok(value) => value matches ScalarView::Boolean(Some(b)) && expr_eval::outcome_with(
                outside,
                row,
                floats,
            ) == Ok::<ScalarView, ExprError>(ScalarView::Boolean(Some(!b))),
            Err(error) => expr_eval::outcome_with(outside, row, floats) == Err::<
                ScalarView,
                ExprError,
            >(error),
        },
{
    if let (
        Expr::InList { expr: x, list: xs, negated: p },
        Expr::InList { expr: y, list: ys, negated: q },
    ) = (inside, outside) {
        lemma_planned_alike(needle, schema, *x, *y, row, floats);
        if let Ok(value) = expr_eval::outcome_with(*x, row, floats) {
            lemma_lists_alike(list@, schema, xs@, ys@, value, list@.len(), row, floats);
        }
    }
}

/// The plan of a list holds on a row just where the value equals one of those in the list, or, for
/// `NOT IN`, none of them.
#[verifier::rlimit(40)]
pub proof fn law_in_list_is_planned_as_it_is_meant(
    needle: QueryExpr,
    list: Vec<QueryExpr>,
    negated: bool,
    schema: Seq<ColumnName>,
    out: Expr,
    out_needle: Expr,
    out_list: Seq<Expr>,
    row: Seq<ScalarView>,
    floats: FloatMath,
)
    requires
        converts(QueryExpr::InList { expr: Box::new(needle), list, negated }, schema, out),
        converts(needle, schema, out_needle),
        out_list.len() == list@.len(),
        forall|i: int| 0 <= i < list@.len() ==> converts(list@[i], schema, #[trigger] out_list[i]),
        expr_eval::outcome_with(out_needle, row, floats) is Ok,
        forall|i: int|
            0 <= i < out_list.len() ==> expr_eval::outcome_with(
                Expr::Eq(Box::new(out_needle), Box::new(#[trigger] out_list[i])),
                row,
                floats,
            ) is Ok,
    ensures
        expr_eval::outcome_with(out, row, floats) == Ok::<ScalarView, ExprError>(
            ScalarView::Boolean(
                Some(
                    negated != exists|i: int|
                        0 <= i < out_list.len() && expr_eval::outcome_with(
                            Expr::Eq(Box::new(out_needle), Box::new(#[trigger] out_list[i])),
                            row,
                            floats,
                        ) == Ok::<ScalarView, ExprError>(ScalarView::Boolean(Some(true))),
                ),
            ),
        ),
{
    if let Expr::InList { expr: x, list: xs, negated: kept } = out {
        lemma_planned_alike(needle, schema, *x, out_needle, row, floats);
        assert forall|i: int| 0 <= i < xs@.len() implies (#[trigger] expr_eval::outcome_with(
            Expr::Eq(Box::new(*x), Box::new(xs@[i])),
            row,
            floats,
        )) == expr_eval::outcome_with(
            Expr::Eq(Box::new(out_needle), Box::new(out_list[i])),
            row,
            floats,
        ) by {
            lemma_list_converted_at(list@, schema, xs@, list@.len(), i);
            lemma_planned_alike(list@[i], schema, xs@[i], out_list[i], row, floats);
        }
        expr_eval::law_in_list_is_equality_with_one(*x, xs, kept, row, floats);
        let found = exists|i: int|
            0 <= i < xs@.len() && #[trigger] expr_eval::outcome_with(
                Expr::Eq(Box::new(*x), Box::new(xs@[i])),
                row,
                floats,
            ) == expr_eval::truth(true);
        let meant = exists|i: int|
            0 <= i < out_list.len() && expr_eval::outcome_with(
                Expr::Eq(Box::new(out_needle), Box::new(#[trigger] out_list[i])),
                row,
                floats,
            ) == Ok::<ScalarView, ExprError>(ScalarView::Boolean(Some(true)));
        if found {
            let i = choose|i: int|
                0 <= i < xs@.len() && #[trigger] expr_eval::outcome_with(
                    Expr::Eq(Box::new(*x), Box::new(xs@[i])),
                    row,
                    floats,
                ) == expr_eval::truth(true);
            assert(meant);
        }
        if meant {
            let i = choose|i: int|
                0 <= i < out_list.len() && expr_eval::outcome_with(
                    Expr::Eq(Box::new(out_needle), Box::new(#[trigger] out_list[i])),
                    row,
                    floats,
                ) == Ok::<ScalarView, ExprError>(ScalarView::Boolean(Some(true)));
            assert(expr_eval::outcome_with(
                Expr::Eq(Box::new(*x), Box::new(xs@[i])),
                row,
                floats,
            ) == expr_eval::truth(true));
        }
    }
}

proof fn lemma_list_converted_at(
    list: Seq<QueryExpr>,
    schema: Seq<ColumnName>,
    out: Seq<Expr>,
    n: nat,
    i: int,
)
    requires
        list_converts(list, schema, out, n),
        0 <= i < n <= list.len(),
    ensures
        converts(list[i], schema, out[i]),
    decreases n,
{
    if i < n - 1 {
        lemma_list_converted_at(list, schema, out, (n - 1) as nat, i);
    }
}

/// What an operator becomes: a planned operator computes on the planned operands just what the
/// operator of a dataflow of that name computes, and an operator without one has no plan.
pub proof fn law_operators_keep_their_operands(
    left: QueryExpr,
    op: Operator,
    right: QueryExpr,
    schema: Seq<ColumnName>,
    out: Expr,
)
    requires
        converts(
            QueryExpr::Binary { left: Box::new(left), op, right: Box::new(right) },
            schema,
            out,
        ),
        constant(left) is None,
        constant(right) is None,
    ensures
        match (op, out) {
            (Operator::Eq, Expr::Eq(l, r))
            | (Operator::NotEq, Expr::NotEq(l, r))
            | (Operator::Lt, Expr::Lt(l, r))
            | (Operator::LtEq, Expr::LtEq(l, r))
            | (Operator::Gt, Expr::Gt(l, r))
            | (Operator::GtEq, Expr::GtEq(l, r))
            | (Operator::And, Expr::And(l, r))
            | (Operator::Or, Expr::Or(l, r))
            | (Operator::Plus, Expr::Add(l, r))
            | (Operator::Minus, Expr::Sub(l, r))
            | (Operator::Multiply, Expr::Mul(l, r))
            | (Operator::Divide, Expr::Div(l, r))
            | (Operator::Modulo, Expr::Mod(l, r)) => converts(left, schema, *l) && converts(
                right,
                schema,
                *r,
            ),
            _ => false,
        },
{
}

/// Expressions of a dataflow compute a row from another one: each of them the value in its place.
pub open spec fn computes(
    expressions: Seq<Expr>,
    from: Seq<ScalarView>,
    row: Seq<ScalarView>,
    floats: FloatMath,
) -> bool {
    row.len() == expressions.len() && forall|i: int|
        0 <= i < row.len() ==> expr_eval::outcome_with(expressions[i], from, floats) == Ok::<
            ScalarView,
            ExprError,
        >(#[trigger] row[i])
}

/// A row comes out of the operator at position `at` of a dataflow whose first operator has the
/// position `base`, where the tables hold the rows that are given.
pub open spec fn flows(
    ops: Seq<OperatorNode>,
    base: int,
    at: int,
    tables: spec_fn(Seq<char>) -> Seq<Seq<ScalarView>>,
    floats: FloatMath,
    row: Seq<ScalarView>,
) -> bool
    decreases at - base,
{
    base <= at < base + ops.len() && match ops[at - base] {
        OperatorNode::Scan(node) => tables(node.source_name@).contains(row),
        OperatorNode::MapRows(node) => port_within(node.input, base, at) && exists|
            from: Seq<ScalarView>,
        |
            #[trigger] computes(node.expressions@, from, row, floats) && flows(
                ops,
                base,
                node.input.operator.0 as int,
                tables,
                floats,
                from,
            ),
        OperatorNode::Filter(node) => port_within(node.input, base, at) && flows(
            ops,
            base,
            node.input.operator.0 as int,
            tables,
            floats,
            row,
        ) && expr_eval::outcome_with(node.predicate, row, floats) == Ok::<ScalarView, ExprError>(
            ScalarView::Boolean(Some(true)),
        ),
        OperatorNode::Join(node) => port_within(node.left, base, at) && port_within(
            node.right,
            base,
            at,
        ) && exists|left: Seq<ScalarView>, right: Seq<ScalarView>|
            #[trigger] crate::operators::join::keys_agree(node.on@, left, right) && flows(
                ops,
                base,
                node.left.operator.0 as int,
                tables,
                floats,
                left,
            ) && flows(ops, base, node.right.operator.0 as int, tables, floats, right)
                && computes(node.projection@, left + right, row, floats),
        OperatorNode::Materialize(node) => port_within(node.input, base, at) && flows(
            ops,
            base,
            node.input.operator.0 as int,
            tables,
            floats,
            row,
        ),
    }
}

/// The rows of two inputs of a join meet: each pair of key expressions means the same value.
pub open spec fn keys_meet(
    on: Seq<(QueryExpr, QueryExpr)>,
    left_schema: Seq<ColumnName>,
    right_schema: Seq<ColumnName>,
    left: Seq<ScalarView>,
    right: Seq<ScalarView>,
) -> bool {
    forall|i: int|
        0 <= i < on.len() ==> match (
            meaning((#[trigger] on[i]).0, left_schema, left),
            meaning(on[i].1, right_schema, right),
        ) {
            (Some(a), Some(b)) => values::same_value(a, b),
            _ => false,
        }
}

/// Expressions of a query mean a row on another one: each of them the value in its place.
pub open spec fn means(
    exprs: Seq<QueryExpr>,
    schema: Seq<ColumnName>,
    from: Seq<ScalarView>,
    row: Seq<ScalarView>,
) -> bool {
    row.len() == exprs.len() && forall|i: int|
        0 <= i < row.len() ==> meaning(exprs[i], schema, from) == Some(#[trigger] row[i])
}

/// A row is one of those that a query asks for, where the tables hold the rows that are given.
pub open spec fn asks_for(
    plan: LogicalPlan,
    tables: spec_fn(Seq<char>) -> Seq<Seq<ScalarView>>,
    row: Seq<ScalarView>,
) -> bool
    decreases plan,
{
    match plan {
        LogicalPlan::TableScan { table_name, schema } => tables(table_name@).contains(row),
        LogicalPlan::Projection { input, exprs, schema } => exists|from: Seq<ScalarView>|
            #[trigger] means(exprs@, stream_schema(*input), from, row) && asks_for(
                *input,
                tables,
                from,
            ),
        LogicalPlan::Filter { input, predicate } => asks_for(*input, tables, row) && meaning(
            predicate,
            stream_schema(*input),
            row,
        ) == Some(ScalarView::Boolean(Some(true))),
        LogicalPlan::Join { left, right, on, .. } => exists|
            l: Seq<ScalarView>,
            r: Seq<ScalarView>,
        |
            #[trigger] keys_meet(on@, stream_schema(*left), stream_schema(*right), l, r)
                && asks_for(*left, tables, l) && asks_for(*right, tables, r) && l.len()
                == stream_schema(*left).len() && r.len() == stream_schema(*right).len() && row
                == l + r,
        LogicalPlan::SubqueryAlias { input } => asks_for(*input, tables, row),
        LogicalPlan::Unsupported => false,
    }
}

/// A planned dataflow computes its query: each row that the query asks for comes out of the last
/// operator, whatever the tables hold.
#[verifier::rlimit(40)]
pub proof fn law_dataflow_gives_what_the_query_asks_for(
    plan: LogicalPlan,
    base: int,
    ops: Seq<OperatorNode>,
    tables: spec_fn(Seq<char>) -> Seq<Seq<ScalarView>>,
    floats: FloatMath,
    row: Seq<ScalarView>,
)
    requires
        planned(plan, base, ops),
        columns_fit(plan),
        0 <= base,
        base + ops.len() <= usize::MAX,
        asks_for(plan, tables, row),
    ensures
        flows(ops, base, base + ops.len() - 1, tables, floats, row),
    decreases plan,
{
    let last = base + ops.len() - 1;
    match plan {
        LogicalPlan::TableScan { table_name, schema } => {},
        LogicalPlan::Projection { input, exprs, schema } => {
            let sub = ops.drop_last();
            let from = choose|from: Seq<ScalarView>|
                #[trigger] means(exprs@, stream_schema(*input), from, row) && asks_for(
                    *input,
                    tables,
                    from,
                );
            law_operators_read_backwards(*input, base, sub);
            law_dataflow_gives_what_the_query_asks_for(*input, base, sub, tables, floats, from);
            lemma_flows_in_a_larger_one(ops, base, sub, base, last - 1, tables, floats, from);
            let node = ops.last()->MapRows_0;
            assert forall|i: int| 0 <= i < row.len() implies expr_eval::outcome_with(
                node.expressions@[i],
                from,
                floats,
            ) == Ok::<ScalarView, ExprError>(#[trigger] row[i]) by {
                lemma_converted_at(
                    exprs@,
                    stream_schema(*input),
                    node.expressions@,
                    exprs@.len(),
                    i,
                );
                law_planned_expression_computes_its_meaning(
                    exprs@[i],
                    stream_schema(*input),
                    node.expressions@[i],
                    from,
                    floats,
                );
            }
            assert(computes(node.expressions@, from, row, floats));
        },
        LogicalPlan::Filter { input, predicate } => {
            let sub = ops.drop_last();
            law_operators_read_backwards(*input, base, sub);
            law_dataflow_gives_what_the_query_asks_for(*input, base, sub, tables, floats, row);
            lemma_flows_in_a_larger_one(ops, base, sub, base, last - 1, tables, floats, row);
            let node = ops.last()->Filter_0;
            law_planned_expression_computes_its_meaning(
                predicate,
                stream_schema(*input),
                node.predicate,
                row,
                floats,
            );
        },
        LogicalPlan::Join { left, right, on, .. } => {
            let middle = operator_count(*left) as int;
            let left_ops = ops.take(middle);
            let right_ops = ops.subrange(middle, ops.len() - 1);
            let (l, r) = choose|l: Seq<ScalarView>, r: Seq<ScalarView>|
                #[trigger] keys_meet(on@, stream_schema(*left), stream_schema(*right), l, r)
                    && asks_for(*left, tables, l) && asks_for(*right, tables, r) && l.len()
                    == stream_schema(*left).len() && r.len() == stream_schema(*right).len()
                    && row == l + r;
            law_operators_read_backwards(*left, base, left_ops);
            law_operators_read_backwards(*right, base + middle, right_ops);
            law_dataflow_gives_what_the_query_asks_for(*left, base, left_ops, tables, floats, l);
            law_dataflow_gives_what_the_query_asks_for(
                *right,
                base + middle,
                right_ops,
                tables,
                floats,
                r,
            );
            lemma_flows_in_a_larger_one(
                ops,
                base,
                left_ops,
                base,
                base + middle - 1,
                tables,
                floats,
                l,
            );
            lemma_flows_in_a_larger_one(
                ops,
                base,
                right_ops,
                base + middle,
                last - 1,
                tables,
                floats,
                r,
            );
            let node = ops.last()->Join_0;
            law_joined_rows_meet_in_every_key(
                on@,
                stream_schema(*left),
                stream_schema(*right),
                node.on@,
                l,
                r,
            );
            assert forall|i: int| 0 <= i < row.len() implies expr_eval::outcome_with(
                node.projection@[i],
                l + r,
                floats,
            ) == Ok::<ScalarView, ExprError>(#[trigger] row[i]) by {
                assert(node.projection@[i] == Expr::Column(i as usize));
            }
            assert(computes(node.projection@, l + r, row, floats));
            assert(flows(ops, base, node.left.operator.0 as int, tables, floats, l));
            assert(flows(ops, base, node.right.operator.0 as int, tables, floats, r));
        },
        LogicalPlan::SubqueryAlias { input } => {
            law_dataflow_gives_what_the_query_asks_for(*input, base, ops, tables, floats, row);
        },
        LogicalPlan::Unsupported => {},
    }
}

/// Rows of two inputs agree in the key columns of a planned join exactly where every pair of the
/// key expressions of the query means the same value.
pub proof fn law_joined_rows_meet_in_every_key(
    on: Seq<(QueryExpr, QueryExpr)>,
    left_schema: Seq<ColumnName>,
    right_schema: Seq<ColumnName>,
    keys: Seq<(usize, usize)>,
    left: Seq<ScalarView>,
    right: Seq<ScalarView>,
)
    requires
        keys_planned(on, left_schema, right_schema, keys),
        left.len() == left_schema.len(),
        right.len() == right_schema.len(),
    ensures
        crate::operators::join::keys_agree(keys, left, right) <==> keys_meet(
            on,
            left_schema,
            right_schema,
            left,
            right,
        ),
{
    assert forall|i: int| 0 <= i < on.len() implies ({
        &&& meaning((#[trigger] on[i]).0, left_schema, left) == Some(left[keys[i].0 as int])
        &&& meaning(on[i].1, right_schema, right) == Some(right[keys[i].1 as int])
    }) by {
        assert(key_at(on[i].0, left_schema) == Some(keys[i].0 as nat));
        if let QueryExpr::Column(column) = on[i].0 {
            law_column_is_the_first_asked_for(left_schema, column);
        }
        if let QueryExpr::Column(column) = on[i].1 {
            law_column_is_the_first_asked_for(right_schema, column);
        }
    }
    if crate::operators::join::keys_agree(keys, left, right) {
        assert forall|i: int| 0 <= i < on.len() implies match (
            meaning((#[trigger] on[i]).0, left_schema, left),
            meaning(on[i].1, right_schema, right),
        ) {
            (Some(a), Some(b)) => values::same_value(a, b),
            _ => false,
        } by {
            assert(values::same_value(left[keys[i].0 as int], right[keys[i].1 as int]));
        }
    }
    if keys_meet(on, left_schema, right_schema, left, right) {
        assert forall|i: int| 0 <= i < keys.len() implies values::same_value(
            left[(#[trigger] keys[i]).0 as int],
            right[keys[i].1 as int],
        ) by {
            assert(meaning(on[i].0, left_schema, left) == Some(left[keys[i].0 as int]));
        }
    }
}

/// What comes out of an operator of a dataflow comes out of it in a larger one too.
#[verifier::rlimit(40)]
proof fn lemma_flows_in_a_larger_one(
    ops: Seq<OperatorNode>,
    base: int,
    sub: Seq<OperatorNode>,
    sub_base: int,
    at: int,
    tables: spec_fn(Seq<char>) -> Seq<Seq<ScalarView>>,
    floats: FloatMath,
    row: Seq<ScalarView>,
)
    requires
        base <= sub_base,
        sub_base + sub.len() <= base + ops.len(),
        forall|i: int| 0 <= i < sub.len() ==> sub[i] == #[trigger] ops[i + sub_base - base],
        flows(sub, sub_base, at, tables, floats, row),
    ensures
        flows(ops, base, at, tables, floats, row),
    decreases at - sub_base,
{
    assert(sub[at - sub_base] == ops[(at - sub_base) + sub_base - base]);
    match sub[at - sub_base] {
        OperatorNode::Scan(node) => {},
        OperatorNode::MapRows(node) => {
            let input = node.input.operator.0 as int;
            let from = choose|from: Seq<ScalarView>|
                #[trigger] computes(node.expressions@, from, row, floats) && flows(
                    sub,
                    sub_base,
                    input,
                    tables,
                    floats,
                    from,
                );
            lemma_flows_in_a_larger_one(ops, base, sub, sub_base, input, tables, floats, from);
        },
        OperatorNode::Filter(node) => {
            let input = node.input.operator.0 as int;
            lemma_flows_in_a_larger_one(ops, base, sub, sub_base, input, tables, floats, row);
        },
        OperatorNode::Join(node) => {
            let l = node.left.operator.0 as int;
            let r = node.right.operator.0 as int;
            let (left, right) = choose|left: Seq<ScalarView>, right: Seq<ScalarView>|
                #[trigger] crate::operators::join::keys_agree(node.on@, left, right) && flows(
                    sub,
                    sub_base,
                    l,
                    tables,
                    floats,
                    left,
                ) && flows(sub, sub_base, r, tables, floats, right) && computes(
                    node.projection@,
                    left + right,
                    row,
                    floats,
                );
            lemma_flows_in_a_larger_one(ops, base, sub, sub_base, l, tables, floats, left);
            lemma_flows_in_a_larger_one(ops, base, sub, sub_base, r, tables, floats, right);
        },
        OperatorNode::Materialize(node) => {
            let input = node.input.operator.0 as int;
            lemma_flows_in_a_larger_one(ops, base, sub, sub_base, input, tables, floats, row);
        },
    }
}

/// Each expression of a converted list is converted.
proof fn lemma_converted_at(
    list: Seq<QueryExpr>,
    schema: Seq<ColumnName>,
    out: Seq<Expr>,
    n: nat,
    i: int,
)
    requires
        list_converts(list, schema, out, n),
        0 <= i < n <= list.len(),
    ensures
        converts(list[i], schema, out[i]),
    decreases n,
{
    if i < n - 1 {
        lemma_converted_at(list, schema, out, (n - 1) as nat, i);
    }
}

/// Something is said of every expression of a query on every row that it meets, and the rows that
/// meet in a join are as long as their schemas.
pub open spec fn all_said(
    plan: LogicalPlan,
    tables: spec_fn(Seq<char>) -> Seq<Seq<ScalarView>>,
) -> bool
    decreases plan,
{
    match plan {
        LogicalPlan::Projection { input, exprs, schema } => all_said(*input, tables) && forall|
            from: Seq<ScalarView>,
            i: int,
        |
            asks_for(*input, tables, from) && 0 <= i < exprs@.len() ==> (#[trigger] meaning(
                exprs@[i],
                stream_schema(*input),
                from,
            )) is Some,
        LogicalPlan::Filter { input, predicate } => all_said(*input, tables) && forall|
            row: Seq<ScalarView>,
        |
            asks_for(*input, tables, row) ==> (#[trigger] meaning(
                predicate,
                stream_schema(*input),
                row,
            )) is Some,
        LogicalPlan::Join { left, right, .. } => all_said(*left, tables) && all_said(
            *right,
            tables,
        ) && rows_fit(*left, tables) && rows_fit(*right, tables),
        LogicalPlan::SubqueryAlias { input } => all_said(*input, tables),
        _ => true,
    }
}

/// The rows that a query asks for are as long as its schema.
pub open spec fn rows_fit(
    plan: LogicalPlan,
    tables: spec_fn(Seq<char>) -> Seq<Seq<ScalarView>>,
) -> bool {
    forall|row: Seq<ScalarView>|
        #[trigger] asks_for(plan, tables, row) ==> row.len() == stream_schema(plan).len()
}

/// A planned dataflow computes nothing but its query: where something is said of all of its
/// expressions, each row that comes out of the last operator is one that the query asks for.
#[verifier::rlimit(40)]
pub proof fn law_dataflow_gives_nothing_else(
    plan: LogicalPlan,
    base: int,
    ops: Seq<OperatorNode>,
    tables: spec_fn(Seq<char>) -> Seq<Seq<ScalarView>>,
    floats: FloatMath,
    row: Seq<ScalarView>,
)
    requires
        planned(plan, base, ops),
        columns_fit(plan),
        0 <= base,
        base + ops.len() <= usize::MAX,
        all_said(plan, tables),
        flows(ops, base, base + ops.len() - 1, tables, floats, row),
    ensures
        asks_for(plan, tables, row),
    decreases plan,
{
    let last = base + ops.len() - 1;
    match plan {
        LogicalPlan::TableScan { table_name, schema } => {},
        LogicalPlan::Projection { input, exprs, schema } => {
            let sub = ops.drop_last();
            let node = ops.last()->MapRows_0;
            law_operators_read_backwards(*input, base, sub);
            let from = choose|from: Seq<ScalarView>|
                #[trigger] computes(node.expressions@, from, row, floats) && flows(
                    ops,
                    base,
                    node.input.operator.0 as int,
                    tables,
                    floats,
                    from,
                );
            lemma_flows_in_a_smaller_one(ops, base, sub, base, last - 1, tables, floats, from);
            law_dataflow_gives_nothing_else(*input, base, sub, tables, floats, from);
            assert forall|i: int| 0 <= i < row.len() implies meaning(
                exprs@[i],
                stream_schema(*input),
                from,
            ) == Some(#[trigger] row[i]) by {
                assert(meaning(exprs@[i], stream_schema(*input), from) is Some);
                lemma_converted_at(
                    exprs@,
                    stream_schema(*input),
                    node.expressions@,
                    exprs@.len(),
                    i,
                );
                law_planned_expression_computes_its_meaning(
                    exprs@[i],
                    stream_schema(*input),
                    node.expressions@[i],
                    from,
                    floats,
                );
            }
            assert(means(exprs@, stream_schema(*input), from, row));
        },
        LogicalPlan::Filter { input, predicate } => {
            let sub = ops.drop_last();
            let node = ops.last()->Filter_0;
            law_operators_read_backwards(*input, base, sub);
            lemma_flows_in_a_smaller_one(ops, base, sub, base, last - 1, tables, floats, row);
            law_dataflow_gives_nothing_else(*input, base, sub, tables, floats, row);
            assert(meaning(predicate, stream_schema(*input), row) is Some);
            law_planned_expression_computes_its_meaning(
                predicate,
                stream_schema(*input),
                node.predicate,
                row,
                floats,
            );
        },
        LogicalPlan::Join { left, right, on, .. } => {
            let middle = operator_count(*left) as int;
            let left_ops = ops.take(middle);
            let right_ops = ops.subrange(middle, ops.len() - 1);
            let node = ops.last()->Join_0;
            law_operators_read_backwards(*left, base, left_ops);
            law_operators_read_backwards(*right, base + middle, right_ops);
            let (l, r) = choose|l: Seq<ScalarView>, r: Seq<ScalarView>|
                #[trigger] crate::operators::join::keys_agree(node.on@, l, r) && flows(
                    ops,
                    base,
                    node.left.operator.0 as int,
                    tables,
                    floats,
                    l,
                ) && flows(ops, base, node.right.operator.0 as int, tables, floats, r) && computes(
                    node.projection@,
                    l + r,
                    row,
                    floats,
                );
            let left_last = base + middle - 1;
            lemma_flows_in_a_smaller_one(ops, base, left_ops, base, left_last, tables, floats, l);
            lemma_flows_in_a_smaller_one(
                ops,
                base,
                right_ops,
                base + middle,
                last - 1,
                tables,
                floats,
                r,
            );
            law_dataflow_gives_nothing_else(*left, base, left_ops, tables, floats, l);
            law_dataflow_gives_nothing_else(*right, base + middle, right_ops, tables, floats, r);
            law_joined_rows_meet_in_every_key(
                on@,
                stream_schema(*left),
                stream_schema(*right),
                node.on@,
                l,
                r,
            );
            assert forall|i: int| 0 <= i < row.len() implies row[i] == (l + r)[i] by {
                assert(expr_eval::outcome_with(node.projection@[i], l + r, floats) == Ok::<
                    ScalarView,
                    ExprError,
                >(row[i]));
                assert(node.projection@[i] == Expr::Column(i as usize));
            }
            assert(row =~= l + r);
        },
        LogicalPlan::SubqueryAlias { input } => {
            law_dataflow_gives_nothing_else(*input, base, ops, tables, floats, row);
        },
        LogicalPlan::Unsupported => {},
    }
}

/// What comes out of an operator of a dataflow comes out of it in a part that reads nothing else.
#[verifier::rlimit(40)]
proof fn lemma_flows_in_a_smaller_one(
    ops: Seq<OperatorNode>,
    base: int,
    sub: Seq<OperatorNode>,
    sub_base: int,
    at: int,
    tables: spec_fn(Seq<char>) -> Seq<Seq<ScalarView>>,
    floats: FloatMath,
    row: Seq<ScalarView>,
)
    requires
        base <= sub_base <= at < sub_base + sub.len(),
        sub_base + sub.len() <= base + ops.len(),
        forall|i: int| 0 <= i < sub.len() ==> sub[i] == #[trigger] ops[i + sub_base - base],
        forall|i: int|
            0 <= i < sub.len() ==> in_place(#[trigger] sub[i], sub_base, sub_base + i),
        flows(ops, base, at, tables, floats, row),
    ensures
        flows(sub, sub_base, at, tables, floats, row),
    decreases at - sub_base,
{
    assert(sub[at - sub_base] == ops[(at - sub_base) + sub_base - base]);
    assert(in_place(sub[at - sub_base], sub_base, sub_base + (at - sub_base)));
    match sub[at - sub_base] {
        OperatorNode::Scan(node) => {},
        OperatorNode::MapRows(node) => {
            let input = node.input.operator.0 as int;
            let from = choose|from: Seq<ScalarView>|
                #[trigger] computes(node.expressions@, from, row, floats) && flows(
                    ops,
                    base,
                    input,
                    tables,
                    floats,
                    from,
                );
            lemma_flows_in_a_smaller_one(ops, base, sub, sub_base, input, tables, floats, from);
        },
        OperatorNode::Filter(node) => {
            let input = node.input.operator.0 as int;
            lemma_flows_in_a_smaller_one(ops, base, sub, sub_base, input, tables, floats, row);
        },
        OperatorNode::Join(node) => {
            let l = node.left.operator.0 as int;
            let r = node.right.operator.0 as int;
            let (left, right) = choose|left: Seq<ScalarView>, right: Seq<ScalarView>|
                #[trigger] crate::operators::join::keys_agree(node.on@, left, right) && flows(
                    ops,
                    base,
                    l,
                    tables,
                    floats,
                    left,
                ) && flows(ops, base, r, tables, floats, right) && computes(
                    node.projection@,
                    left + right,
                    row,
                    floats,
                );
            lemma_flows_in_a_smaller_one(ops, base, sub, sub_base, l, tables, floats, left);
            lemma_flows_in_a_smaller_one(ops, base, sub, sub_base, r, tables, floats, right);
        },
        OperatorNode::Materialize(node) => {
            let input = node.input.operator.0 as int;
            lemma_flows_in_a_smaller_one(ops, base, sub, sub_base, input, tables, floats, row);
        },
    }
}

/// An expression, or one of its parts, is at fault: a column that the rows do not have, an operator
/// that dataflows do not know, a list without values, or an expression that is not supported.
pub open spec fn at_fault(expr: QueryExpr, schema: Seq<ColumnName>, fault: PlanFault) -> bool
    decreases expr,
{
    match expr {
        QueryExpr::Alias(inner) => at_fault(*inner, schema, fault),
        QueryExpr::Column(column) => fault == PlanFault::ColumnNotFound(column.name@) && forall|
            i: int,
        |
            0 <= i < schema.len() ==> !is_asked_for(column, #[trigger] schema[i]),
        QueryExpr::Literal(value) => false,
        QueryExpr::Binary { left, op, right } => at_fault(*left, schema, fault) || at_fault(
            *right,
            schema,
            fault,
        ) || (fault is UnsupportedOperator && (op is StringConcat || op is Unsupported)),
        QueryExpr::Negative(inner) => at_fault(*inner, schema, fault),
        QueryExpr::InList { expr, list, negated } => (fault is EmptyInList && list@.len() == 0)
            || at_fault(*expr, schema, fault) || exists|i: int|
            0 <= i < list@.len() && at_fault(#[trigger] list@[i], schema, fault),
        QueryExpr::Unsupported => fault is UnsupportedExpression,
    }
}

/// An expression is refused for a fault of one of its parts, and where it is not refused no part of
/// it has one.
pub proof fn law_expressions_are_refused_for_a_fault(
    expr: QueryExpr,
    schema: Seq<ColumnName>,
    other: PlanFault,
)
    ensures
        expr_fault(expr, schema) matches Some(fault) ==> at_fault(expr, schema, fault),
        expr_fault(expr, schema) is None ==> !at_fault(expr, schema, other),
    decreases expr, 0nat,
{
    match expr {
        QueryExpr::Alias(inner) => law_expressions_are_refused_for_a_fault(*inner, schema, other),
        QueryExpr::Column(column) => law_column_is_the_first_asked_for(schema, column),
        QueryExpr::Literal(value) => {},
        QueryExpr::Binary { left, op, right } => {
            law_expressions_are_refused_for_a_fault(*left, schema, other);
            law_expressions_are_refused_for_a_fault(*right, schema, other);
        },
        QueryExpr::Negative(inner) => law_expressions_are_refused_for_a_fault(
            *inner,
            schema,
            other,
        ),
        QueryExpr::InList { expr: needle, list, negated } => {
            law_expressions_are_refused_for_a_fault(*needle, schema, other);
            lemma_list_is_refused_for_a_fault(list@, schema, other, list@.len());
            if list@.len() > 0 && expr_fault(*needle, schema) is None {
                if expr_fault(expr, schema) is Some {
                    let fault = expr_fault(expr, schema)->0;
                    let i = choose|i: int|
                        0 <= i < list@.len() && at_fault(#[trigger] list@[i], schema, fault);
                    assert(at_fault(list@[i], schema, fault));
                }
            }
        },
        QueryExpr::Unsupported => {},
    }
}

proof fn lemma_list_is_refused_for_a_fault(
    list: Seq<QueryExpr>,
    schema: Seq<ColumnName>,
    other: PlanFault,
    n: nat,
)
    requires
        n <= list.len(),
    ensures
        list_fault(list, schema, n) matches Some(fault) ==> exists|i: int|
            0 <= i < n && at_fault(#[trigger] list[i], schema, fault),
        list_fault(list, schema, n) is None ==> forall|i: int|
            0 <= i < n ==> !at_fault(#[trigger] list[i], schema, other),
    decreases list, n,
{
    if n > 0 {
        lemma_list_is_refused_for_a_fault(list, schema, other, (n - 1) as nat);
        law_expressions_are_refused_for_a_fault(list[n - 1], schema, other);
        if list_fault(list, schema, (n - 1) as nat) is None && list_fault(list, schema, n) is Some {
            assert(at_fault(list[n - 1], schema, list_fault(list, schema, n)->0));
        }
    }
}

/// Only joins of the rows of both inputs are planned, on pairs of columns that the inputs have, and
/// without another condition; what a query asks for besides is refused.
pub proof fn law_joins_that_are_planned(
    left: LogicalPlan,
    right: LogicalPlan,
    on: Seq<(QueryExpr, QueryExpr)>,
    plan: LogicalPlan,
)
    requires
        plan matches LogicalPlan::Join { left: l, right: r, on: pairs, .. } && *l == left && *r
            == right && pairs@ == on,
    ensures
        plan_fault(plan) is None ==> {
            &&& plan_fault(left) is None
            &&& plan_fault(right) is None
            &&& plan matches LogicalPlan::Join { has_filter, join_type, constraint, .. }
                && !has_filter && join_type is Inner && constraint is On
            &&& forall|i: int|
                0 <= i < on.len() ==> {
                    &&& (#[trigger] on[i]).0 matches QueryExpr::Column(column) && exists|k: int|
                        0 <= k < stream_schema(left).len() && is_asked_for(
                            column,
                            #[trigger] stream_schema(left)[k],
                        )
                    &&& on[i].1 matches QueryExpr::Column(column) && exists|k: int|
                        0 <= k < stream_schema(right).len() && is_asked_for(
                            column,
                            #[trigger] stream_schema(right)[k],
                        )
                }
        },
        plan matches LogicalPlan::Join { join_type, .. } && !(join_type is Inner) ==> plan_fault(
            plan,
        ) == Some(PlanFault::NotInnerJoin),
{
    if plan_fault(plan) is None {
        assert forall|i: int| 0 <= i < on.len() implies key_fault(
            (#[trigger] on[i]).0,
            stream_schema(left),
        ) is None && key_fault(on[i].1, stream_schema(right)) is None by {
            lemma_no_key_fault(on, stream_schema(left), stream_schema(right), on.len(), i);
        }
        assert forall|i: int| 0 <= i < on.len() implies {
            &&& (#[trigger] on[i]).0 matches QueryExpr::Column(column) && exists|k: int|
                0 <= k < stream_schema(left).len() && is_asked_for(
                    column,
                    #[trigger] stream_schema(left)[k],
                )
            &&& on[i].1 matches QueryExpr::Column(column) && exists|k: int|
                0 <= k < stream_schema(right).len() && is_asked_for(
                    column,
                    #[trigger] stream_schema(right)[k],
                )
        } by {
            assert(key_fault(on[i].0, stream_schema(left)) is None);
            if let QueryExpr::Column(column) = on[i].0 {
                law_column_is_the_first_asked_for(stream_schema(left), column);
                let k = column_at(stream_schema(left), column)->0 as int;
                assert(is_asked_for(column, stream_schema(left)[k]));
            }
            if let QueryExpr::Column(column) = on[i].1 {
                law_column_is_the_first_asked_for(stream_schema(right), column);
                let k = column_at(stream_schema(right), column)->0 as int;
                assert(is_asked_for(column, stream_schema(right)[k]));
            }
        }
    }
}

proof fn lemma_no_key_fault(
    on: Seq<(QueryExpr, QueryExpr)>,
    left: Seq<ColumnName>,
    right: Seq<ColumnName>,
    n: nat,
    i: int,
)
    requires
        keys_fault(on, left, right, n) is None,
        0 <= i < n <= on.len(),
    ensures
        key_fault(on[i].0, left) is None,
        key_fault(on[i].1, right) is None,
    decreases n,
{
    if i < n - 1 {
        lemma_no_key_fault(on, left, right, (n - 1) as nat, i);
    }
}

} // verus!
