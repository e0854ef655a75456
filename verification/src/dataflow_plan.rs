//! Plans: operators and the streams between them.

use vstd::prelude::*;

use crate::stream_types::{OperatorId, OutputPort};
use crate::values::ScalarValue;

verus! {

/// An expression over the columns of a row by position.
#[derive(Debug, PartialEq, Eq)]
pub enum Expr {
    Column(usize),
    Literal(ScalarValue),
    Eq(Box<Expr>, Box<Expr>),
    NotEq(Box<Expr>, Box<Expr>),
    Lt(Box<Expr>, Box<Expr>),
    LtEq(Box<Expr>, Box<Expr>),
    Gt(Box<Expr>, Box<Expr>),
    GtEq(Box<Expr>, Box<Expr>),
    And(Box<Expr>, Box<Expr>),
    Or(Box<Expr>, Box<Expr>),
    Add(Box<Expr>, Box<Expr>),
    Sub(Box<Expr>, Box<Expr>),
    Mul(Box<Expr>, Box<Expr>),
    Div(Box<Expr>, Box<Expr>),
    Mod(Box<Expr>, Box<Expr>),
    Neg(Box<Expr>),
    InList { expr: Box<Expr>, list: Vec<Expr>, negated: bool },
}

impl Expr {
    /// The column at a position.
    pub fn column(index: usize) -> (expr: Self)
        ensures
            expr == Expr::Column(index),
    {
        Expr::Column(index)
    }

    /// A constant.
    pub fn literal(value: ScalarValue) -> (expr: Self)
        ensures
            expr == Expr::Literal(value),
    {
        Expr::Literal(value)
    }
}

/// Brings the rows of a source in.
#[derive(Debug, PartialEq, Eq)]
pub struct ScanNode {
    pub source_name: String,
    pub output: OutputPort,
}

/// Computes rows from rows.
#[derive(Debug, PartialEq, Eq)]
pub struct MapNode {
    pub input: OutputPort,
    pub output: OutputPort,
    pub expressions: Vec<Expr>,
}

/// Keeps the rows for which a predicate holds.
#[derive(Debug, PartialEq, Eq)]
pub struct FilterNode {
    pub input: OutputPort,
    pub output: OutputPort,
    pub predicate: Expr,
}

/// Joins the rows of two inputs on equal columns.
#[derive(Debug, PartialEq, Eq)]
pub struct JoinNode {
    pub left: OutputPort,
    pub right: OutputPort,
    pub output: OutputPort,
    pub on: Vec<(usize, usize)>,
    pub projection: Vec<Expr>,
}

/// Keeps the rows as a materialized view.
#[derive(Debug, PartialEq, Eq)]
pub struct MaterializeNode {
    pub input: OutputPort,
    pub view_name: String,
}

/// One operator of a plan.
#[derive(Debug, PartialEq, Eq)]
pub enum OperatorNode {
    Scan(ScanNode),
    MapRows(MapNode),
    Filter(FilterNode),
    Join(JoinNode),
    Materialize(MaterializeNode),
}

/// The operators of a dataflow, each identified by its position.
#[derive(Debug, PartialEq, Eq)]
pub struct DataflowPlan {
    pub graph_id: String,
    pub operators: Vec<OperatorNode>,
    pub root: Option<OperatorId>,
}

impl DataflowPlan {
    /// A plan without operators.
    pub fn new(graph_id: String) -> (plan: Self)
        ensures
            plan.graph_id == graph_id,
            plan.operators@.len() == 0,
            plan.root is None,
    {
        DataflowPlan { graph_id, operators: Vec::new(), root: None }
    }

    /// Appends an operator and tells its position.
    pub fn add_operator(&mut self, node: OperatorNode) -> (id: OperatorId)
        ensures
            id.0 == old(self).operators@.len(),
            final(self).operators@ == old(self).operators@.push(node),
            final(self).graph_id == old(self).graph_id,
            final(self).root == old(self).root,
    {
        let id = OperatorId(self.operators.len());
        self.operators.push(node);
        id
    }

    /// Makes an operator the last one of the dataflow.
    pub fn set_root(&mut self, root: OperatorId)
        ensures
            final(self).root == Some(root),
            final(self).operators == old(self).operators,
            final(self).graph_id == old(self).graph_id,
    {
        self.root = Some(root);
    }
}

} // verus!
