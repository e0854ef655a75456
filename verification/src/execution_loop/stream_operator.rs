//! An operator of any kind, as it runs in a dataflow.

use vstd::prelude::*;

use crate::expr_eval;
use crate::expr_eval::{evaluate_bool_with, ExprError};
use crate::float_results::{FloatCall, FloatMath, FloatResults};
use crate::operators;
use crate::operators::filter;
use crate::operators::filter::FilterOperator;
use crate::operators::join;
use crate::operators::join::{JoinOperator, JoinSide, RowCounts};
use crate::operators::map::{project_row_with, MapOperator};
use crate::operators::materialize::MaterializeOperator;
use crate::operators::scan::ScanOperator;
use crate::operators::{
    DispatchSink, Encodable, EventQueue, EventView, NullSink, OperatorError, RowSink, SinkError,
};
use crate::stream_types::{Diff, InputPort, Timestamp};
use crate::values;
use crate::values::{Row, ScalarView};

verus! {

/// An operator that feeds the operators behind it through events.
pub enum StreamOperator {
    Scan(ScanOperator<DispatchSink>),
    MapRows(MapOperator<DispatchSink>),
    Filter(FilterOperator<DispatchSink>),
    Join(JoinOperator<DispatchSink>),
    Materialize(MaterializeOperator<NullSink>),
}

/// All events go to operators from `low` up to, not including, `high`.
pub open spec fn within(events: Seq<EventView>, low: int, high: int) -> bool {
    forall|i: int|
        0 <= i < events.len() ==> low <= (#[trigger] events[i]).target_op_index && events[i].target_op_index
            < high
}

/// All targets are operators from `low` up to, not including, `high`.
pub open spec fn targets_within(targets: Seq<(usize, InputPort)>, low: int, high: int) -> bool {
    forall|i: int|
        0 <= i < targets.len() ==> low <= (#[trigger] targets[i]).0 && targets[i].0 < high
}

/// A sink that fed its targets only.
proof fn lemma_push_within(
    before: DispatchSink,
    row: Seq<ScalarView>,
    diff: Diff,
    timestamp: Timestamp,
    after: DispatchSink,
    outcome: Result<(), SinkError>,
    low: int,
    high: int,
)
    requires
        DispatchSink::push_step(before, row, diff, timestamp, after, outcome),
        targets_within(before.targets@, low, high),
        within(operators::event_views(before.queue@), low, high),
    ensures
        after.targets == before.targets,
        within(operators::event_views(after.queue@), low, high),
        outcome is Ok,
{
    let old_events = operators::event_views(before.queue@);
    let sent = operators::forwarded(before.targets@, row, diff, timestamp);
    let events = operators::event_views(after.queue@);
    assert(events == old_events + sent);
    assert forall|i: int| 0 <= i < events.len() implies low <= (
    #[trigger] events[i]).target_op_index && events[i].target_op_index < high by {
        if i < old_events.len() {
            assert(events[i] == old_events[i]);
        } else {
            let k = i - old_events.len();
            assert(events[i] == sent[k]);
            assert(before.targets@[k].0 == sent[k].target_op_index);
        }
    }
}

/// A sink that fed its targets only, with several rows.
proof fn lemma_emits_within(
    before: DispatchSink,
    changes: RowCounts,
    timestamp: Timestamp,
    after: DispatchSink,
    handed: nat,
    result: Result<(), OperatorError>,
    low: int,
    high: int,
)
    requires
        join::emits(before, changes, timestamp, after, handed, result),
        targets_within(before.targets@, low, high),
        within(operators::event_views(before.queue@), low, high),
    ensures
        after.targets == before.targets,
        within(operators::event_views(after.queue@), low, high),
    decreases changes.len(),
{
    if changes.len() > 0 {
        let (diff, mid, outcome) = choose|
            diff: Diff,
            mid: DispatchSink,
            outcome: Result<(), SinkError>,
        |
            {
                &&& #[trigger] DispatchSink::push_step(
                    before,
                    changes[0].0,
                    diff,
                    timestamp,
                    mid,
                    outcome,
                )
                &&& diff == changes[0].1
                &&& handed > 0
                &&& match outcome {
                    Err(error) => after == mid && handed == 1 && result == Err::<
                        (),
                        OperatorError,
                    >(OperatorError::Sink(error)),
                    Ok(_) => join::emits(
                        mid,
                        changes.drop_first(),
                        timestamp,
                        after,
                        (handed - 1) as nat,
                        result,
                    ),
                }
            };
        lemma_push_within(before, changes[0].0, diff, timestamp, mid, outcome, low, high);
        lemma_emits_within(
            mid,
            changes.drop_first(),
            timestamp,
            after,
            (handed - 1) as nat,
            result,
            low,
            high,
        );
    }
}

/// A sink that fed its targets only, with the rows up to one that cannot be encoded.
proof fn lemma_handed_within(
    before: DispatchSink,
    changes: RowCounts,
    refused: Option<usize>,
    timestamp: Timestamp,
    after: DispatchSink,
    noted_before: RowCounts,
    noted_after: RowCounts,
    result: Result<(), OperatorError>,
    low: int,
    high: int,
)
    requires
        join::handed_up_to(
            before,
            changes,
            refused,
            timestamp,
            after,
            noted_before,
            noted_after,
            result,
        ),
        targets_within(before.targets@, low, high),
        within(operators::event_views(before.queue@), low, high),
    ensures
        after.targets == before.targets,
        within(operators::event_views(after.queue@), low, high),
{
    let (outputs, outcome) = match refused {
        Some(at) if at < changes.len() => {
            let outputs = changes.take(at as int);
            (
                outputs,
                choose|outcome: Result<(), OperatorError>|
                    #[trigger] join::noted_and_handed(
                        before,
                        outputs,
                        timestamp,
                        after,
                        noted_before,
                        noted_after,
                        outcome,
                    ) && result == match outcome {
                        Ok(_) => Err::<(), OperatorError>(OperatorError::NotEncoded),
                        Err(error) => Err(error),
                    },
            )
        },
        _ => (changes, result),
    };
    let handed = choose|handed: nat|
        #[trigger] join::emits(before, outputs, timestamp, after, handed, outcome);
    lemma_emits_within(before, outputs, timestamp, after, handed, outcome, low, high);
}

impl StreamOperator {
    /// The inputs that the operator feeds.
    pub open spec fn targets(self) -> Seq<(usize, InputPort)> {
        match self {
            StreamOperator::Scan(op) => op.sink.targets@,
            StreamOperator::MapRows(op) => op.sink.targets@,
            StreamOperator::Filter(op) => op.sink.targets@,
            StreamOperator::Join(op) => op.sink.targets@,
            StreamOperator::Materialize(_) => Seq::empty(),
        }
    }

    /// The events that the operator made and that are not yet in the queue of the dataflow.
    pub open spec fn pending(self) -> Seq<EventView> {
        match self {
            StreamOperator::Scan(op) => operators::event_views(op.sink.queue@),
            StreamOperator::MapRows(op) => operators::event_views(op.sink.queue@),
            StreamOperator::Filter(op) => operators::event_views(op.sink.queue@),
            StreamOperator::Join(op) => operators::event_views(op.sink.queue@),
            StreamOperator::Materialize(_) => Seq::empty(),
        }
    }

    /// How taking a row may change the operator and what it may answer.
    pub open spec fn input_step(
        before: StreamOperator,
        input: InputPort,
        row: Seq<ScalarView>,
        diff: Diff,
        timestamp: Timestamp,
        after: StreamOperator,
        result: Result<(), OperatorError>,
    ) -> bool {
        StreamOperator::evaluated_step(
            before,
            input,
            row,
            diff,
            timestamp,
            FloatMath::none(),
            Encodable::spec_all(),
            after,
            result,
        )
    }

    /// How taking a row, with what operations on floats give and where some rows cannot be encoded,
    /// may change the operator and what it may answer.
    pub open spec fn evaluated_step(
        before: StreamOperator,
        input: InputPort,
        row: Seq<ScalarView>,
        diff: Diff,
        timestamp: Timestamp,
        floats: FloatMath,
        encodable: Encodable,
        after: StreamOperator,
        result: Result<(), OperatorError>,
    ) -> bool {
        match (before, after) {
            (StreamOperator::Scan(b), StreamOperator::Scan(a)) => {
                &&& result == Err::<(), OperatorError>(OperatorError::ScanTakesNoInput)
                &&& a == b
            },
            (StreamOperator::MapRows(b), StreamOperator::MapRows(a)) => {
                &&& a.input == b.input
                &&& a.expressions == b.expressions
                &&& if input != b.input {
                    &&& result == Err::<(), OperatorError>(OperatorError::UnexpectedPort(input))
                    &&& a.sink == b.sink
                } else {
                    match crate::operators::map::mapped_with(
                        b.expressions@,
                        b.expressions@.len(),
                        row,
                        floats,
                    ) {
                        Err(error) => {
                            &&& result == Err::<(), OperatorError>(
                                OperatorError::Expression(error),
                            )
                            &&& a.sink == b.sink
                        },
                        Ok(projected) => operators::forwards(
                            b.sink,
                            projected,
                            diff,
                            timestamp,
                            a.sink,
                            result,
                        ),
                    }
                }
            },
            (StreamOperator::Filter(b), StreamOperator::Filter(a)) => {
                &&& a.input == b.input
                &&& a.predicate == b.predicate
                &&& if input != b.input {
                    &&& result == Err::<(), OperatorError>(OperatorError::UnexpectedPort(input))
                    &&& a.sink == b.sink
                } else {
                    match filter::holds(b.predicate, row, floats) {
                        Err(error) => {
                            &&& result == Err::<(), OperatorError>(
                                OperatorError::Expression(error),
                            )
                            &&& a.sink == b.sink
                        },
                        Ok(false) => result is Ok && a.sink == b.sink,
                        Ok(true) => operators::forwards(
                            b.sink,
                            row,
                            diff,
                            timestamp,
                            a.sink,
                            result,
                        ),
                    }
                }
            },
            (StreamOperator::Join(b), StreamOperator::Join(a)) => {
                &&& a.same_plan(b)
                &&& b.input_handled(
                    input,
                    row,
                    diff,
                    timestamp,
                    floats,
                    encodable,
                    a,
                    result,
                )
            },
            (StreamOperator::Materialize(b), StreamOperator::Materialize(a)) => {
                &&& a.input == b.input
                &&& a.view == b.view
                &&& a.published == b.published
                &&& a.last_published_ts == b.last_published_ts
                &&& if input != b.input {
                    result == Err::<(), OperatorError>(OperatorError::UnexpectedPort(input))
                } else {
                    result is Ok
                }
            },
            _ => false,
        }
    }

    /// The same operator after its events went to the queue of the dataflow.
    pub open spec fn emptied(before: StreamOperator, after: StreamOperator) -> bool {
        match (before, after) {
            (StreamOperator::Scan(b), StreamOperator::Scan(a)) => {
                &&& a.source_name == b.source_name
                &&& a.sink.targets == b.sink.targets
                &&& a.sink.queue@.len() == 0
            },
            (StreamOperator::MapRows(b), StreamOperator::MapRows(a)) => {
                &&& a.input == b.input
                &&& a.expressions == b.expressions
                &&& a.sink.targets == b.sink.targets
                &&& a.sink.queue@.len() == 0
            },
            (StreamOperator::Filter(b), StreamOperator::Filter(a)) => {
                &&& a.input == b.input
                &&& a.predicate == b.predicate
                &&& a.sink.targets == b.sink.targets
                &&& a.sink.queue@.len() == 0
            },
            (StreamOperator::Join(b), StreamOperator::Join(a)) => {
                &&& a.same_plan(b)
                &&& a.left_state == b.left_state
                &&& a.right_state == b.right_state
                &&& a.left_changes == b.left_changes
                &&& a.right_changes == b.right_changes
                &&& a.output_changes == b.output_changes
                &&& a.sink.targets == b.sink.targets
                &&& a.sink.queue@.len() == 0
            },
            (StreamOperator::Materialize(b), StreamOperator::Materialize(a)) => a == b,
            _ => false,
        }
    }

    /// Taking a row leaves the targets as they are, and makes events for them only.
    pub proof fn lemma_input_within(
        before: StreamOperator,
        input: InputPort,
        row: Seq<ScalarView>,
        diff: Diff,
        timestamp: Timestamp,
        floats: FloatMath,
        encodable: Encodable,
        after: StreamOperator,
        result: Result<(), OperatorError>,
        low: int,
        high: int,
    )
        requires
            StreamOperator::evaluated_step(
                before,
                input,
                row,
                diff,
                timestamp,
                floats,
                encodable,
                after,
                result,
            ),
            targets_within(before.targets(), low, high),
            within(before.pending(), low, high),
        ensures
            after.targets() == before.targets(),
            within(after.pending(), low, high),
    {
        match (before, after) {
            (StreamOperator::MapRows(b), StreamOperator::MapRows(a)) => {
                if a.sink != b.sink {
                    let projected = crate::operators::map::mapped_with(
                        b.expressions@,
                        b.expressions@.len(),
                        row,
                        floats,
                    )->Ok_0;
                    let outcome = choose|outcome: Result<(), SinkError>|
                        #[trigger] DispatchSink::push_step(
                            b.sink,
                            projected,
                            diff,
                            timestamp,
                            a.sink,
                            outcome,
                        ) && result == operators::sink_outcome(outcome);
                    lemma_push_within(
                        b.sink,
                        projected,
                        diff,
                        timestamp,
                        a.sink,
                        outcome,
                        low,
                        high,
                    );
                }
            },
            (StreamOperator::Filter(b), StreamOperator::Filter(a)) => {
                if a.sink != b.sink {
                    let outcome = choose|outcome: Result<(), SinkError>|
                        #[trigger] DispatchSink::push_step(
                            b.sink,
                            row,
                            diff,
                            timestamp,
                            a.sink,
                            outcome,
                        ) && result == operators::sink_outcome(outcome);
                    lemma_push_within(b.sink, row, diff, timestamp, a.sink, outcome, low, high);
                }
            },
            (StreamOperator::Join(b), StreamOperator::Join(a)) => {
                if a.sink != b.sink {
                    let side = if input == b.left_input {
                        JoinSide::Left
                    } else {
                        JoinSide::Right
                    };
                    let other = if input == b.left_input {
                        JoinSide::Right
                    } else {
                        JoinSide::Left
                    };
                    let key = join::side_key(row, b.join_keys@, side)->Ok_0;
                    let kept = join::rows_for(b.rows(other), key);
                    let all = join::join_outputs(
                        side,
                        row,
                        diff as int,
                        kept,
                        b.projection@,
                        kept.len(),
                        floats,
                    )->Ok_0;
                    lemma_handed_within(
                        b.sink,
                        all,
                        encodable.output,
                        timestamp,
                        a.sink,
                        join::change_views(b.output_changes@),
                        join::change_views(a.output_changes@),
                        result,
                        low,
                        high,
                    );
                }
            },
            _ => {},
        }
    }

    /// An operator that waits for no result of an operation on floats steps alike with more
    /// results.
    pub proof fn law_more_results_step_alike(
        before: StreamOperator,
        input: InputPort,
        row: Seq<ScalarView>,
        diff: Diff,
        timestamp: Timestamp,
        some: FloatMath,
        more: FloatMath,
        encodable: Encodable,
        after: StreamOperator,
        result: Result<(), OperatorError>,
    )
        requires
            some.within(more),
            before.awaited_by(input, row, diff, some, encodable) is None,
        ensures
            StreamOperator::evaluated_step(
                before,
                input,
                row,
                diff,
                timestamp,
                more,
                encodable,
                after,
                result,
            ) == StreamOperator::evaluated_step(
                before,
                input,
                row,
                diff,
                timestamp,
                some,
                encodable,
                after,
                result,
            ),
    {
        match before {
            StreamOperator::MapRows(op) => {
                crate::operators::map::law_results_only_complete_a_row(
                    op.expressions@,
                    op.expressions@.len(),
                    row,
                    some,
                    more,
                );
            },
            StreamOperator::Filter(op) => {
                expr_eval::law_results_only_complete_the_evaluation(op.predicate, row, some, more);
            },
            StreamOperator::Join(op) => {
                if let Some(side) = op.side_of(input) {
                    let other = match side {
                        JoinSide::Left => JoinSide::Right,
                        JoinSide::Right => JoinSide::Left,
                    };
                    let key = join::side_key(row, op.join_keys@, side)->Ok_0;
                    let kept = join::rows_for(op.rows(other), key);
                    if !(join::join_outputs(
                        side,
                        row,
                        diff as int,
                        kept,
                        op.projection@,
                        kept.len(),
                        some,
                    ) matches Err(OperatorError::Expression(ExprError::Awaits(_)))) {
                        join::law_results_only_complete_the_outputs(
                            side,
                            row,
                            diff as int,
                            kept,
                            op.projection@,
                            kept.len(),
                            some,
                            more,
                        );
                    }
                }
            },
            _ => {},
        }
    }

    /// An operator that took a row waited for no result of an operation on floats.
    pub proof fn lemma_taken_awaits_nothing(
        before: StreamOperator,
        input: InputPort,
        row: Seq<ScalarView>,
        diff: Diff,
        timestamp: Timestamp,
        floats: FloatMath,
        encodable: Encodable,
        after: StreamOperator,
        result: Result<(), OperatorError>,
    )
        requires
            StreamOperator::evaluated_step(
                before,
                input,
                row,
                diff,
                timestamp,
                floats,
                encodable,
                after,
                result,
            ),
            result is Ok,
        ensures
            before.awaited_by(input, row, diff, floats, encodable) is None,
    {
    }

    /// Takes a row.
    pub fn on_input(
        &mut self,
        input: InputPort,
        row: Row,
        diff: Diff,
        timestamp: Timestamp,
    ) -> (result: Result<(), OperatorError>)
        ensures
            StreamOperator::input_step(
                *old(self),
                input,
                values::row_view(row@),
                diff,
                timestamp,
                *final(self),
                result,
            ),
    {
        self.on_input_with(input, row, diff, timestamp, &FloatResults::new(), Encodable::all())
    }

    /// Takes a row, with results of operations on floats, and where some rows cannot be encoded.
    pub fn on_input_with(
        &mut self,
        input: InputPort,
        row: Row,
        diff: Diff,
        timestamp: Timestamp,
        floats: &FloatResults,
        encodable: Encodable,
    ) -> (result: Result<(), OperatorError>)
        ensures
            StreamOperator::evaluated_step(
                *old(self),
                input,
                values::row_view(row@),
                diff,
                timestamp,
                floats@,
                encodable,
                *final(self),
                result,
            ),
    {
        match self {
            StreamOperator::Scan(op) => op.on_input(input, row, diff, timestamp),
            StreamOperator::MapRows(op) => op.on_input_with(input, row, diff, timestamp, floats),
            StreamOperator::Filter(op) => op.on_input_with(input, row, diff, timestamp, floats),
            StreamOperator::Join(op) => op.on_input_with(
                input,
                row,
                diff,
                timestamp,
                floats,
                encodable,
            ),
            StreamOperator::Materialize(op) => op.on_input(input, row, diff, timestamp),
        }
    }

    /// The operation on floats whose result taking a row waits for.
    pub open spec fn awaited_by(
        self,
        input: InputPort,
        row: Seq<ScalarView>,
        diff: Diff,
        floats: FloatMath,
        encodable: Encodable,
    ) -> Option<FloatCall> {
        match self {
            StreamOperator::MapRows(op) => match crate::operators::map::mapped_with(
                op.expressions@,
                op.expressions@.len(),
                row,
                floats,
            ) {
                Err(ExprError::Awaits(call)) if input == op.input => Some(call),
                _ => None,
            },
            StreamOperator::Filter(op) => match filter::holds(op.predicate, row, floats) {
                Err(ExprError::Awaits(call)) if input == op.input => Some(call),
                _ => None,
            },
            StreamOperator::Join(op) => match op.side_of(input) {
                Some(side) => op.awaited_of(side, row, diff, floats, encodable),
                None => None,
            },
            _ => None,
        }
    }

    /// The operation on floats whose result taking a row waits for.
    pub fn awaited(
        &self,
        input: InputPort,
        row: &Row,
        diff: Diff,
        floats: &FloatResults,
        encodable: Encodable,
    ) -> (call: Option<FloatCall>)
        ensures
            call == self.awaited_by(input, values::row_view(row@), diff, floats@, encodable),
    {
        match self {
            StreamOperator::MapRows(op) => {
                if input != op.input {
                    return None;
                }
                match project_row_with(&op.expressions, row, floats) {
                    Err(ExprError::Awaits(call)) => Some(call),
                    _ => None,
                }
            },
            StreamOperator::Filter(op) => {
                if input != op.input {
                    return None;
                }
                match evaluate_bool_with(&op.predicate, row, floats) {
                    Err(ExprError::Awaits(call)) => Some(call),
                    _ => None,
                }
            },
            StreamOperator::Join(op) => op.awaited(input, row, diff, floats, encodable),
            _ => None,
        }
    }

    /// Moves the events that the operator made to the end of a queue.
    pub fn drain_into(&mut self, queue: &mut EventQueue)
        ensures
            StreamOperator::emptied(*old(self), *final(self)),
            operators::event_views(final(queue)@) == operators::event_views(old(queue)@) + old(
                self,
            ).pending(),
            final(self).targets() == old(self).targets(),
            final(self).pending().len() == 0,
    {
        let ghost before = queue@;
        match self {
            StreamOperator::Scan(op) => {
                let ghost events = op.sink.queue@;
                op.sink.drain_into(queue);
                assert(operators::event_views(queue@) =~= operators::event_views(before)
                    + operators::event_views(events));
            },
            StreamOperator::MapRows(op) => {
                let ghost events = op.sink.queue@;
                op.sink.drain_into(queue);
                assert(operators::event_views(queue@) =~= operators::event_views(before)
                    + operators::event_views(events));
            },
            StreamOperator::Filter(op) => {
                let ghost events = op.sink.queue@;
                op.sink.drain_into(queue);
                assert(operators::event_views(queue@) =~= operators::event_views(before)
                    + operators::event_views(events));
            },
            StreamOperator::Join(op) => {
                let ghost events = op.sink.queue@;
                op.sink.drain_into(queue);
                assert(operators::event_views(queue@) =~= operators::event_views(before)
                    + operators::event_views(events));
            },
            StreamOperator::Materialize(_) => {
                assert(operators::event_views(queue@) =~= operators::event_views(before)
                    + Seq::<EventView>::empty());
            },
        }
    }
}

/// One event for each of the targets of an operator.
pub open spec fn event_per_target(
    targets: Seq<(usize, InputPort)>,
    row: Seq<ScalarView>,
    diff: Diff,
    ts: Timestamp,
) -> Seq<EventView> {
    Seq::new(
        targets.len(),
        |i: int|
            EventView {
                target_op_index: targets[i].0,
                input_port: targets[i].1,
                row,
                diff,
                ts,
            },
    )
}

/// A filter hands a row on, as it is and to each operator that it feeds, where its predicate is
/// true for the row; where that is false or null, it hands nothing on.
pub proof fn law_filter_hands_on_what_it_keeps(
    before: FilterOperator<DispatchSink>,
    row: Seq<ScalarView>,
    diff: Diff,
    ts: Timestamp,
    floats: FloatMath,
    encodable: Encodable,
    after: StreamOperator,
    result: Result<(), OperatorError>,
)
    requires
        StreamOperator::evaluated_step(
            StreamOperator::Filter(before),
            before.input,
            row,
            diff,
            ts,
            floats,
            encodable,
            after,
            result,
        ),
    ensures
        ({
            let value = expr_eval::outcome_with(before.predicate, row, floats);
            let queued = operators::event_views(before.sink.queue@);
            &&& value == Ok::<ScalarView, ExprError>(ScalarView::Boolean(Some(true))) ==> result
                is Ok && after.pending() == queued + event_per_target(
                before.sink.targets@,
                row,
                diff,
                ts,
            )
            &&& value == Ok::<ScalarView, ExprError>(ScalarView::Boolean(Some(false))) || value
                == Ok::<ScalarView, ExprError>(ScalarView::Boolean(None)) ==> result is Ok
                && after.pending() == queued
            &&& value is Err ==> result is Err && after.pending() == queued
            &&& after.targets() == before.sink.targets@
        }),
{
    assert(operators::forwarded(before.sink.targets@, row, diff, ts) =~= event_per_target(
        before.sink.targets@,
        row,
        diff,
        ts,
    ));
}

/// A map hands on, to each operator that it feeds, the row of the values that its expressions have
/// on the row, as often as the row came.
pub proof fn law_map_hands_on_what_it_computes(
    before: MapOperator<DispatchSink>,
    row: Seq<ScalarView>,
    diff: Diff,
    ts: Timestamp,
    floats: FloatMath,
    encodable: Encodable,
    after: StreamOperator,
    result: Result<(), OperatorError>,
    out: Seq<ScalarView>,
)
    requires
        StreamOperator::evaluated_step(
            StreamOperator::MapRows(before),
            before.input,
            row,
            diff,
            ts,
            floats,
            encodable,
            after,
            result,
        ),
        out.len() == before.expressions@.len(),
        forall|i: int|
            0 <= i < out.len() ==> expr_eval::outcome_with(
                #[trigger] before.expressions@[i],
                row,
                floats,
            ) == Ok::<ScalarView, ExprError>(out[i]),
    ensures
        result is Ok,
        after.pending() == operators::event_views(before.sink.queue@) + event_per_target(
            before.sink.targets@,
            out,
            diff,
            ts,
        ),
{
    crate::operators::map::law_mapped_row_has_a_value_per_expression(
        before.expressions@,
        before.expressions@.len(),
        row,
        floats,
    );
    let mapped = crate::operators::map::mapped_with(
        before.expressions@,
        before.expressions@.len(),
        row,
        floats,
    );
    if let Ok(found) = mapped {
        assert(found =~= out) by {
            assert forall|i: int| 0 <= i < out.len() implies found[i] == out[i] by {
                assert(expr_eval::outcome_with(before.expressions@[i], row, floats) is Ok);
            }
        }
    }
    assert(operators::forwarded(before.sink.targets@, out, diff, ts) =~= event_per_target(
        before.sink.targets@,
        out,
        diff,
        ts,
    ));
}

/// A row at an input that an operator does not have changes nothing and is an error.
pub proof fn law_rows_at_other_inputs_are_refused(
    before: StreamOperator,
    input: InputPort,
    row: Seq<ScalarView>,
    diff: Diff,
    ts: Timestamp,
    floats: FloatMath,
    encodable: Encodable,
    after: StreamOperator,
    result: Result<(), OperatorError>,
)
    requires
        StreamOperator::evaluated_step(
            before,
            input,
            row,
            diff,
            ts,
            floats,
            encodable,
            after,
            result,
        ),
        match before {
            StreamOperator::Scan(_) => true,
            StreamOperator::MapRows(op) => input != op.input,
            StreamOperator::Filter(op) => input != op.input,
            StreamOperator::Join(op) => input != op.left_input && input != op.right_input,
            StreamOperator::Materialize(op) => input != op.input,
        },
    ensures
        result == Err::<(), OperatorError>(
            if before is Scan {
                OperatorError::ScanTakesNoInput
            } else {
                OperatorError::UnexpectedPort(input)
            },
        ),
        after.pending() == before.pending(),
{
}

} // verus!
