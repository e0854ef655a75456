# floe_executor

The executor of a streaming SQL database, verified with Verus. It evaluates expressions on rows,
turns query plans into dataflows, runs rows through scans, filters, maps and joins, keeps
materialized views and their versions, sends what a version changed to readers, and speaks the
PostgreSQL wire protocol.

`src/` is the library; every function in it is verified against its contract. `tests/` runs it.
`app/` is ordinary Rust around it: sockets, tasks, JSON, Arrow and DataFusion values, floating point
and a store in memory. Where an expression needs an operation on floats, the library says which one;
`app/` computes it, and the library goes on with its result. The same holds of rows that are to be
stored: the encoding of a row, or that it has none, is handed in. The storage engine and the query
engine behind the server are given by who embeds it (`app/backend.rs`).

| Module | What it does |
| --- | --- |
| `values`, `columns`, `encoding`, `text`, `byte_order` | scalars, batches of columns, encoded rows |
| `float_results`, `expr_eval`, `expression_eval`, `expression`, `projection`, `join` | expressions on rows |
| `query_planner`, `dataflow_plan`, `plan_to_pipeline` | plans and dataflows |
| `operators`, `execution_loop`, `operator_state`, `zset` | operators, steps and checkpoints |
| `outer_stream`, `source_decoder`, `nexmark_sources` | sources and their events |
| `mv`, `materialized_view`, `mv_loader`, `mv_changelog` | views, versions and their changes |
| `arrow_builders`, `scalar_array_builder` | Arrow arrays |
| `pgwire` | the wire protocol |

Functions whose names start with `law_` state what holds of several functions together.

The library calls `arrow` (through `datafusion`), `bytes`, `chrono` and `regex`. Each call stands in
a small function marked `external_body`, whose comment says what its contract claims.
