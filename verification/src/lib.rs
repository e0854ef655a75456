//! The executor of a streaming SQL database: expressions, plans and operators on rows, materialized
//! views and their changes, and the wire protocol that they are read through.

pub mod arrow_builders;
pub mod byte_order;
pub mod columns;
pub mod dataflow_plan;
pub mod encoding;
pub mod execution_loop;
pub mod expr_eval;
pub mod expression;
pub mod expression_eval;
pub mod float_results;
pub mod join;
pub mod materialized_view;
pub mod mv;
pub mod mv_changelog;
pub mod mv_loader;
pub mod name_map;
pub mod namespaces;
pub mod nexmark_sources;
pub mod operator_state;
pub mod operators;
pub mod outer_stream;
pub mod pgwire;
pub mod plan_to_pipeline;
pub mod projection;
pub mod query_planner;
pub mod scalar_array_builder;
pub mod source_decoder;
pub mod stream_types;
pub mod text;
pub mod values;
pub mod zset;
