//! The loop: takes events in, runs their rows through the operators, and makes steps.

use std::collections::VecDeque;

use vstd::prelude::*;

use super::barrier::BarrierClock;
use super::graph_builder;
use super::ingest;
use super::ingest::{ExecutionRuntime, IngestError, RowStreamHandle, ScanRuntime};
use super::ranks;
use super::ranks::Rank;
use super::stream_operator;
use super::stream_operator::StreamOperator;
use crate::float_results::{FloatCall, FloatMath, FloatResults};
use crate::materialized_view::{MaterializedViewHandle, MaterializedViewRegistry};
use crate::name_map;
use crate::name_map::NameMap;
use crate::operators;
use crate::operators::join::JoinChanges;
use crate::operators::{
    DispatchEvent, Encodable, EventQueue, EventView, OperatorError, OutsideResults, OutsideView,
};
use crate::outer_stream;
use crate::outer_stream::{NotEncoded, OuterStreamRegistry, WriterState};
use crate::stream_types::{Diff, Timestamp};
use crate::values;
use crate::values::{Row, ScalarView};
use crate::zset::ZSet;

verus! {

/// How many events go to an operator.
pub open spec fn count_for(events: Seq<EventView>, target: int) -> nat
    decreases events.len(),
{
    if events.len() == 0 {
        0
    } else {
        count_for(events.drop_last(), target) + if events.last().target_op_index == target {
            1nat
        } else {
            0nat
        }
    }
}

/// How many events go to each of the operators.
pub open spec fn counts(events: Seq<EventView>, operators: nat) -> Seq<nat> {
    Seq::new(operators, |i: int| count_for(events, i))
}

proof fn lemma_count_append(a: Seq<EventView>, b: Seq<EventView>, target: int)
    ensures
        count_for(a + b, target) == count_for(a, target) + count_for(b, target),
    decreases b.len(),
{
    if b.len() == 0 {
        assert(a + b =~= a);
    } else {
        assert((a + b).drop_last() =~= a + b.drop_last());
        lemma_count_append(a, b.drop_last(), target);
    }
}

proof fn lemma_count_outside(events: Seq<EventView>, low: int, high: int, target: int)
    requires
        stream_operator::within(events, low, high),
        target < low,
    ensures
        count_for(events, target) == 0,
    decreases events.len(),
{
    if events.len() > 0 {
        let front = events.drop_last();
        assert forall|i: int| 0 <= i < front.len() implies low <= (
        #[trigger] front[i]).target_op_index && front[i].target_op_index < high by {
            assert(front[i] == events[i]);
        }
        assert(events[events.len() - 1].target_op_index >= low);
        lemma_count_outside(front, low, high, target);
    }
}

/// Handling the first event lowers the rank of the queue.
proof fn lemma_dispatch_lowers_rank(
    queue: Seq<EventView>,
    made: Seq<EventView>,
    operators: nat,
)
    requires
        queue.len() > 0,
        queue[0].target_op_index < operators,
        stream_operator::within(made, queue[0].target_op_index + 1, operators as int),
    ensures
        decreases_to!(ranks::rank_of(operators, Rank::Lowest, counts(queue, operators))
            => ranks::rank_of(
                operators,
                Rank::Lowest,
                counts(queue.skip(1) + made, operators),
            )),
{
    let target = queue[0].target_op_index as int;
    let after = queue.skip(1) + made;
    let a = counts(after, operators);
    let b = counts(queue, operators);
    assert forall|i: int| 0 <= i <= target implies a[i] + (if i == target {
        1nat
    } else {
        0nat
    }) == b[i] by {
        lemma_count_append(queue.skip(1), made, i);
        lemma_count_outside(made, target + 1, operators as int, i);
        assert(seq![queue[0]] + queue.skip(1) =~= queue);
        lemma_count_append(seq![queue[0]], queue.skip(1), i);
        let one = seq![queue[0]];
        assert(one.drop_last() =~= Seq::<EventView>::empty());
        assert(one.last() == queue[0]);
        reveal_with_fuel(count_for, 2);
    }
    assert(ranks::first_smaller_at(a, b, target));
    ranks::lemma_smaller_rank(operators, Rank::Lowest, a, b);
}

/// The first event of the queue is handled: its operator takes it, and what the operator makes
/// of it goes to the end of the queue.
pub open spec fn dispatched(
    before_ops: Seq<StreamOperator>,
    before_queue: Seq<EventView>,
    floats: FloatMath,
    encodable: Encodable,
    after_ops: Seq<StreamOperator>,
    after_queue: Seq<EventView>,
    result: Result<(), OperatorError>,
) -> bool {
    let event = before_queue[0];
    let at = event.target_op_index as int;
    &&& before_queue.len() > 0
    &&& at < before_ops.len()
    &&& after_ops.len() == before_ops.len()
    &&& forall|i: int|
        0 <= i < before_ops.len() && i != at ==> #[trigger] after_ops[i] == before_ops[i]
    &&& exists|middle: StreamOperator|
        {
            &&& #[trigger] StreamOperator::evaluated_step(
                before_ops[at],
                event.input_port,
                event.row,
                event.diff,
                event.ts,
                floats,
                encodable,
                middle,
                result,
            )
            &&& StreamOperator::emptied(middle, after_ops[at])
            &&& after_queue == before_queue.skip(1) + middle.pending()
        }
}

/// The operation on floats whose result the first event of a queue waits for.
pub open spec fn awaited_first(
    ops: Seq<StreamOperator>,
    queue: Seq<EventView>,
    floats: FloatMath,
    encodable: Encodable,
) -> Option<FloatCall> {
    let event = queue[0];
    ops[event.target_op_index as int].awaited_by(
        event.input_port,
        event.row,
        event.diff,
        floats,
        encodable,
    )
}

/// So many events were handled, one after the other.
pub open spec fn reached(
    before_ops: Seq<StreamOperator>,
    before_queue: Seq<EventView>,
    outside: OutsideView,
    ops: Seq<StreamOperator>,
    queue: Seq<EventView>,
    steps: nat,
) -> bool
    decreases steps,
{
    if steps == 0 {
        ops == before_ops && queue == before_queue
    } else {
        exists|
            middle_ops: Seq<StreamOperator>,
            middle_queue: Seq<EventView>,
            outcome: Result<(), OperatorError>,
        |
            reached(before_ops, before_queue, outside, middle_ops, middle_queue, (steps - 1) as nat)
                && #[trigger] dispatched(
                middle_ops,
                middle_queue,
                outside.floats,
                outside.encodable_at((steps - 1) as nat),
                ops,
                queue,
                outcome,
            ) && outcome is Ok
    }
}

proof fn lemma_one_more(
    first_ops: Seq<StreamOperator>,
    first_queue: Seq<EventView>,
    outside: OutsideView,
    middle_ops: Seq<StreamOperator>,
    middle_queue: Seq<EventView>,
    ops: Seq<StreamOperator>,
    queue: Seq<EventView>,
    outcome: Result<(), OperatorError>,
    steps: nat,
)
    requires
        reached(first_ops, first_queue, outside, middle_ops, middle_queue, steps),
        dispatched(
            middle_ops,
            middle_queue,
            outside.floats,
            outside.encodable_at(steps),
            ops,
            queue,
            outcome,
        ),
        outcome is Ok,
    ensures
        reached(first_ops, first_queue, outside, ops, queue, steps + 1),
{
    assert(((steps + 1) - 1) as nat == steps);
}

/// Events were handled one after the other until none was left, until one failed, or until one
/// waits for the result of an operation on floats, which is then answered.
pub open spec fn drained(
    before_ops: Seq<StreamOperator>,
    before_queue: Seq<EventView>,
    outside: OutsideView,
    ops: Seq<StreamOperator>,
    queue: Seq<EventView>,
    result: Result<Option<FloatCall>, OperatorError>,
) -> bool {
    match result {
        Ok(None) => queue.len() == 0 && exists|steps: nat|
            #[trigger] reached(before_ops, before_queue, outside, ops, queue, steps),
        Ok(Some(call)) => queue.len() > 0 && exists|steps: nat|
            #[trigger] reached(before_ops, before_queue, outside, ops, queue, steps)
                && awaited_first(ops, queue, outside.floats, outside.encodable_at(steps)) == Some(
                call,
            ),
        Err(error) => exists|
            middle_ops: Seq<StreamOperator>,
            middle_queue: Seq<EventView>,
            steps: nat,
        |
            #[trigger] reached(before_ops, before_queue, outside, middle_ops, middle_queue, steps)
                && awaited_first(
                middle_ops,
                middle_queue,
                outside.floats,
                outside.encodable_at(steps),
            ) is None && dispatched(
                middle_ops,
                middle_queue,
                outside.floats,
                outside.encodable_at(steps),
                ops,
                queue,
                Err(error),
            ),
    }
}

/// Events that were handled with some results of operations on floats are handled alike with more.
proof fn lemma_reached_with_more(
    before_ops: Seq<StreamOperator>,
    before_queue: Seq<EventView>,
    some: OutsideView,
    more: OutsideView,
    ops: Seq<StreamOperator>,
    queue: Seq<EventView>,
    steps: nat,
)
    requires
        reached(before_ops, before_queue, some, ops, queue, steps),
        some.floats.within(more.floats),
        some.encodable == more.encodable,
    ensures
        reached(before_ops, before_queue, more, ops, queue, steps),
    decreases steps,
{
    if steps > 0 {
        let last = (steps - 1) as nat;
        let encodable = some.encodable_at(last);
        let (middle_ops, middle_queue, outcome) = choose|
            middle_ops: Seq<StreamOperator>,
            middle_queue: Seq<EventView>,
            outcome: Result<(), OperatorError>,
        |
            reached(before_ops, before_queue, some, middle_ops, middle_queue, last)
                && #[trigger] dispatched(
                middle_ops,
                middle_queue,
                some.floats,
                encodable,
                ops,
                queue,
                outcome,
            ) && outcome is Ok;
        lemma_reached_with_more(
            before_ops,
            before_queue,
            some,
            more,
            middle_ops,
            middle_queue,
            last,
        );
        let event = middle_queue[0];
        let op = middle_ops[event.target_op_index as int];
        let after = choose|after: StreamOperator|
            {
                &&& #[trigger] StreamOperator::evaluated_step(
                    op,
                    event.input_port,
                    event.row,
                    event.diff,
                    event.ts,
                    some.floats,
                    encodable,
                    after,
                    outcome,
                )
                &&& StreamOperator::emptied(after, ops[event.target_op_index as int])
                &&& queue == middle_queue.skip(1) + after.pending()
            };
        StreamOperator::lemma_taken_awaits_nothing(
            op,
            event.input_port,
            event.row,
            event.diff,
            event.ts,
            some.floats,
            encodable,
            after,
            outcome,
        );
        StreamOperator::law_more_results_step_alike(
            op,
            event.input_port,
            event.row,
            event.diff,
            event.ts,
            some.floats,
            more.floats,
            encodable,
            after,
            outcome,
        );
        assert(dispatched(
            middle_ops,
            middle_queue,
            more.floats,
            more.encodable_at(last),
            ops,
            queue,
            outcome,
        ));
    }
}

/// Events that were handled behind events that were handled, where all rows can be encoded.
proof fn lemma_reached_further(
    before_ops: Seq<StreamOperator>,
    before_queue: Seq<EventView>,
    outside: OutsideView,
    middle_ops: Seq<StreamOperator>,
    middle_queue: Seq<EventView>,
    first: nat,
    ops: Seq<StreamOperator>,
    queue: Seq<EventView>,
    second: nat,
)
    requires
        reached(before_ops, before_queue, outside, middle_ops, middle_queue, first),
        reached(middle_ops, middle_queue, outside, ops, queue, second),
        outside.encodable.len() == 0,
    ensures
        reached(before_ops, before_queue, outside, ops, queue, first + second),
    decreases second,
{
    if second > 0 {
        let last = (second - 1) as nat;
        let (last_ops, last_queue, outcome) = choose|
            last_ops: Seq<StreamOperator>,
            last_queue: Seq<EventView>,
            outcome: Result<(), OperatorError>,
        |
            reached(middle_ops, middle_queue, outside, last_ops, last_queue, last)
                && #[trigger] dispatched(
                last_ops,
                last_queue,
                outside.floats,
                outside.encodable_at(last),
                ops,
                queue,
                outcome,
            ) && outcome is Ok;
        lemma_reached_further(
            before_ops,
            before_queue,
            outside,
            middle_ops,
            middle_queue,
            first,
            last_ops,
            last_queue,
            last,
        );
        lemma_one_more(
            before_ops,
            before_queue,
            outside,
            last_ops,
            last_queue,
            ops,
            queue,
            outcome,
            first + last,
        );
        assert(first + last + 1 == first + second);
    }
}

/// Handling queued events can be taken up again: where it stopped for a result of an operation on
/// floats and goes on with more results, all ends as if these had been there from the start. This
/// is said of rows that can all be encoded.
pub proof fn law_draining_can_be_taken_up(
    before_ops: Seq<StreamOperator>,
    before_queue: Seq<EventView>,
    some: OutsideView,
    more: OutsideView,
    middle_ops: Seq<StreamOperator>,
    middle_queue: Seq<EventView>,
    call: FloatCall,
    ops: Seq<StreamOperator>,
    queue: Seq<EventView>,
    result: Result<Option<FloatCall>, OperatorError>,
)
    requires
        drained(before_ops, before_queue, some, middle_ops, middle_queue, Ok(Some(call))),
        drained(middle_ops, middle_queue, more, ops, queue, result),
        some.floats.within(more.floats),
        some.encodable.len() == 0,
        more.encodable.len() == 0,
    ensures
        drained(before_ops, before_queue, more, ops, queue, result),
{
    assert(some.encodable =~= more.encodable);
    let first = choose|steps: nat|
        #[trigger] reached(before_ops, before_queue, some, middle_ops, middle_queue, steps)
            && awaited_first(
            middle_ops,
            middle_queue,
            some.floats,
            some.encodable_at(steps),
        ) == Some(call);
    lemma_reached_with_more(
        before_ops,
        before_queue,
        some,
        more,
        middle_ops,
        middle_queue,
        first,
    );
    match result {
        Ok(None) => {
            let second = choose|steps: nat|
                #[trigger] reached(middle_ops, middle_queue, more, ops, queue, steps);
            lemma_reached_further(
                before_ops,
                before_queue,
                more,
                middle_ops,
                middle_queue,
                first,
                ops,
                queue,
                second,
            );
        },
        Ok(Some(next)) => {
            let second = choose|steps: nat|
                #[trigger] reached(middle_ops, middle_queue, more, ops, queue, steps)
                    && awaited_first(ops, queue, more.floats, more.encodable_at(steps)) == Some(
                    next,
                );
            lemma_reached_further(
                before_ops,
                before_queue,
                more,
                middle_ops,
                middle_queue,
                first,
                ops,
                queue,
                second,
            );
            assert(more.encodable_at(first + second) == more.encodable_at(second));
        },
        Err(error) => {
            let (last_ops, last_queue, second) = choose|
                last_ops: Seq<StreamOperator>,
                last_queue: Seq<EventView>,
                steps: nat,
            |
                #[trigger] reached(middle_ops, middle_queue, more, last_ops, last_queue, steps)
                    && awaited_first(
                    last_ops,
                    last_queue,
                    more.floats,
                    more.encodable_at(steps),
                ) is None && dispatched(
                    last_ops,
                    last_queue,
                    more.floats,
                    more.encodable_at(steps),
                    ops,
                    queue,
                    Err(error),
                );
            lemma_reached_further(
                before_ops,
                before_queue,
                more,
                middle_ops,
                middle_queue,
                first,
                last_ops,
                last_queue,
                second,
            );
            assert(more.encodable_at(first + second) == more.encodable_at(second));
        },
    }
}

/// Handles the first event of a queue.
fn dispatch_first(
    ops: &mut Vec<StreamOperator>,
    queue: &mut EventQueue,
    floats: &FloatResults,
    encodable: Encodable,
) -> (result: Result<(), OperatorError>)
    requires
        graph_builder::flows_forward(old(ops)@),
        stream_operator::within(
            operators::event_views(old(queue)@),
            0,
            old(ops)@.len() as int,
        ),
        old(queue)@.len() > 0,
    ensures
        graph_builder::flows_forward(final(ops)@),
        stream_operator::within(
            operators::event_views(final(queue)@),
            0,
            final(ops)@.len() as int,
        ),
        final(ops)@.len() == old(ops)@.len(),
        dispatched(
            old(ops)@,
            operators::event_views(old(queue)@),
            floats@,
            encodable,
            final(ops)@,
            operators::event_views(final(queue)@),
            result,
        ),
        decreases_to!(ranks::rank_of(
            old(ops)@.len(),
            Rank::Lowest,
            counts(operators::event_views(old(queue)@), old(ops)@.len()),
        ) => ranks::rank_of(
            old(ops)@.len(),
            Rank::Lowest,
            counts(operators::event_views(final(queue)@), old(ops)@.len()),
        )),
{
    let ghost before_ops = ops@;
    let ghost before_queue = operators::event_views(queue@);
    match queue.pop_front() {
        None => Ok(()),
        Some(event) => {
            let at: usize = event.target_op_index;
            proof {
                assert(event@ == before_queue[0]);
                assert(operators::event_views(queue@) =~= before_queue.skip(1));
            }
            let result = ops[at].on_input_with(
                event.input_port,
                event.row,
                event.diff,
                event.ts,
                floats,
                encodable,
            );
            let ghost middle = ops@[at as int];
            ops[at].drain_into(queue);
            proof {
                let made = middle.pending();
                StreamOperator::lemma_input_within(
                    before_ops[at as int],
                    before_queue[0].input_port,
                    before_queue[0].row,
                    before_queue[0].diff,
                    before_queue[0].ts,
                    floats@,
                    encodable,
                    middle,
                    result,
                    at + 1,
                    before_ops.len() as int,
                );
                let after_queue = operators::event_views(queue@);
                assert(after_queue == before_queue.skip(1) + made);
                assert(dispatched(
                    before_ops,
                    before_queue,
                    floats@,
                    encodable,
                    ops@,
                    after_queue,
                    result,
                ));
                lemma_dispatch_lowers_rank(before_queue, made, before_ops.len());
                assert forall|i: int| 0 <= i < after_queue.len() implies 0 <= (
                #[trigger] after_queue[i]).target_op_index && after_queue[i].target_op_index
                    < ops@.len() by {
                    let rest = before_queue.skip(1);
                    if i < rest.len() {
                        assert(after_queue[i] == before_queue[i + 1]);
                    } else {
                        assert(after_queue[i] == made[i - rest.len()]);
                    }
                }
                assert forall|i: int| 0 <= i < ops@.len() implies stream_operator::targets_within(
                    (#[trigger] ops@[i]).targets(),
                    i + 1,
                    ops@.len() as int,
                ) && ops@[i].pending().len() == 0 by {
                    assert(stream_operator::targets_within(
                        before_ops[i].targets(),
                        i + 1,
                        ops@.len() as int,
                    ));
                    if i != at {
                        assert(ops@[i] == before_ops[i]);
                    }
                }
            }
            result
        },
    }
}

/// Handles the events of a queue, one after the other, with those that come up meanwhile.
fn drain(
    ops: &mut Vec<StreamOperator>,
    queue: &mut EventQueue,
    outside: &OutsideResults,
) -> (result: Result<Option<FloatCall>, OperatorError>)
    requires
        graph_builder::flows_forward(old(ops)@),
        stream_operator::within(
            operators::event_views(old(queue)@),
            0,
            old(ops)@.len() as int,
        ),
    ensures
        graph_builder::flows_forward(final(ops)@),
        stream_operator::within(
            operators::event_views(final(queue)@),
            0,
            final(ops)@.len() as int,
        ),
        final(ops)@.len() == old(ops)@.len(),
        drained(
            old(ops)@,
            operators::event_views(old(queue)@),
            outside@,
            final(ops)@,
            operators::event_views(final(queue)@),
            result,
        ),
{
    let ghost first_ops = ops@;
    let ghost first_queue = operators::event_views(queue@);
    let ghost mut steps: nat = 0;
    let mut known: usize = 0;
    loop
        invariant
            graph_builder::flows_forward(ops@),
            stream_operator::within(operators::event_views(queue@), 0, ops@.len() as int),
            ops@.len() == first_ops.len(),
            first_ops == old(ops)@,
            first_queue == operators::event_views(old(queue)@),
            reached(first_ops, first_queue, outside@, ops@, operators::event_views(queue@), steps),
            known <= outside.encodable@.len(),
            known == steps || (known == outside.encodable@.len() && known <= steps),
        decreases
            ranks::rank_of(
                ops@.len(),
                Rank::Lowest,
                counts(operators::event_views(queue@), ops@.len()),
            ),
    {
        let ghost before_ops = ops@;
        let ghost before_queue = operators::event_views(queue@);
        if queue.len() == 0 {
            return Ok(None);
        }
        let mut encodable: Encodable = Encodable::all();
        if known < outside.encodable.len() {
            encodable = outside.encodable[known];
            known = known + 1;
        }
        assert(encodable == outside@.encodable_at(steps));
        assert(before_queue[0] == queue@[0]@);
        let at: usize = queue[0].target_op_index;
        match ops[at].awaited(
            queue[0].input_port,
            &queue[0].row,
            queue[0].diff,
            &outside.floats,
            encodable,
        ) {
            Some(call) => {
                return Ok(Some(call));
            },
            None => {},
        }
        let result = dispatch_first(ops, queue, &outside.floats, encodable);
        match result {
            Ok(()) => {},
            Err(error) => {
                return Err(error);
            },
        }
        proof {
            lemma_one_more(
                first_ops,
                first_queue,
                outside@,
                before_ops,
                before_queue,
                ops@,
                operators::event_views(queue@),
                result,
                steps,
            );
            steps = steps + 1;
        }
    }
}

/// Why an event or a watermark was not taken.
#[derive(Debug, PartialEq, Eq)]
pub enum TickError<E> {
    /// The event did not get to a scan.
    Ingest(IngestError<E>),
    /// The row of the event is to be stored and cannot be encoded.
    NotEncoded,
    /// No operator takes the rows of the stream.
    NoScanOperator(RowStreamHandle),
    /// The operator that takes the rows of the stream is no scan.
    NotAScan(usize),
    /// The source has no watermark.
    NoWatermark,
    /// An operator failed.
    Operator(OperatorError),
    /// A queued row waits for the result of an operation on floats. The clock has moved, and the
    /// step is still to be finished.
    Awaits(FloatCall),
}

/// What the loop holds.
#[verifier::ext_equal]
pub struct LoopState {
    pub ops: Seq<StreamOperator>,
    pub queue: Seq<EventView>,
    pub clock: BarrierClock,
    pub scans: Seq<(RowStreamHandle, usize)>,
    pub sources: Seq<String>,
    pub bindings: Map<Seq<char>, RowStreamHandle>,
    pub default_diff: Diff,
    pub watermarks: Map<Seq<char>, Timestamp>,
    pub offsets: Option<Map<Seq<char>, Timestamp>>,
    /// The writers of the changes of the sources, where these are stored.
    pub outer: Option<Seq<WriterState>>,
}

/// The streams of the scans go to operators that there are.
pub open spec fn scans_within(scans: Seq<(RowStreamHandle, usize)>, count: nat) -> bool {
    forall|i: int| 0 <= i < scans.len() ==> (#[trigger] scans[i]).1 < count
}

/// The operator that takes the rows of a stream: the last one that was told.
pub open spec fn scan_of(scans: Seq<(RowStreamHandle, usize)>, handle: RowStreamHandle) -> Option<
    usize,
>
    decreases scans.len(),
{
    if scans.len() == 0 {
        None
    } else if scans.last().0 == handle {
        Some(scans.last().1)
    } else {
        scan_of(scans.drop_last(), handle)
    }
}

/// The views of the operators are in the registry.
pub open spec fn views_present(
    ops: Seq<StreamOperator>,
    registry: MaterializedViewRegistry,
) -> bool {
    forall|i: int|
        0 <= i < ops.len() ==> ((#[trigger] ops[i]) matches StreamOperator::Materialize(op)
            ==> op.view < registry.views().len())
}

/// Some operator among the first `n` keeps this view.
pub open spec fn kept_by(ops: Seq<StreamOperator>, view: int, n: nat) -> bool {
    exists|i: int|
        0 <= i < n && ((#[trigger] ops[i]) matches StreamOperator::Materialize(op) && op.view
            == view)
}

/// A view, with a watermark if it is kept, and otherwise as it was.
pub open spec fn view_watermarked(
    before: MaterializedViewHandle,
    kept: bool,
    watermark: Timestamp,
    after: MaterializedViewHandle,
) -> bool {
    if kept {
        &&& after.view_name() == before.view_name()
        &&& after.rows() == before.rows()
        &&& after.view_watermark() == Some(watermark)
    } else {
        after == before
    }
}

/// The operators handed a watermark on: the views that they keep have it.
pub open spec fn watermarked(
    before_ops: Seq<StreamOperator>,
    before: MaterializedViewRegistry,
    watermark: Timestamp,
    after_ops: Seq<StreamOperator>,
    after: MaterializedViewRegistry,
    n: nat,
) -> bool {
    &&& after_ops.len() == before_ops.len()
    &&& forall|i: int| 0 <= i < before_ops.len() ==> same_operator(
        before_ops[i],
        #[trigger] after_ops[i],
    )
    &&& after.views().len() == before.views().len()
    &&& forall|v: int|
        0 <= v < before.views().len() ==> view_watermarked(
            before.views()[v],
            kept_by(before_ops, v, n),
            watermark,
            #[trigger] after.views()[v],
        )
}

/// The same operator in the same state.
pub open spec fn same_operator(before: StreamOperator, after: StreamOperator) -> bool {
    match (before, after) {
        (StreamOperator::Materialize(b), StreamOperator::Materialize(a)) => {
            &&& a.input == b.input
            &&& a.view == b.view
            &&& a.published == b.published
            &&& a.last_published_ts == b.last_published_ts
        },
        _ => after == before,
    }
}

/// The smallest watermark of the sources; without sources, a default.
pub open spec fn is_frontier(
    watermarks: Map<Seq<char>, Timestamp>,
    default: Timestamp,
    frontier: Timestamp,
) -> bool {
    if watermarks.dom() == Set::<Seq<char>>::empty() {
        frontier == default
    } else {
        &&& exists|source: Seq<char>|
            #[trigger] watermarks.dom().contains(source) && watermarks[source] == frontier
        &&& forall|source: Seq<char>|
            #[trigger] watermarks.dom().contains(source) ==> frontier <= watermarks[source]
    }
}

/// A watermark is taken: one that is not larger than the clock's changes nothing; a larger one
/// moves the clock, lets the operators handle what is queued, and then goes to the views. What
/// is answered is the step to be sealed, if any.
pub open spec fn watermark_taken<E>(
    before: LoopState,
    before_views: MaterializedViewRegistry,
    watermark: Timestamp,
    outside: OutsideView,
    after: LoopState,
    after_views: MaterializedViewRegistry,
    result: Result<Option<u64>, TickError<E>>,
) -> bool {
    if watermark <= before.clock.watermark {
        &&& after == before
        &&& after_views == before_views
        &&& result == Ok::<Option<u64>, TickError<E>>(None)
    } else {
        &&& after.clock.watermark == watermark
        &&& after.clock.step == (if before.clock.step == u64::MAX {
            u64::MAX
        } else {
            (before.clock.step + 1) as u64
        })
        &&& after.scans == before.scans
        &&& after.sources == before.sources
        &&& after.bindings == before.bindings
        &&& after.default_diff == before.default_diff
        &&& after.watermarks == before.watermarks
        &&& after.offsets == before.offsets
        &&& after.outer == before.outer
        &&& match result {
            Ok(step) => {
                &&& step == Some(after.clock.step)
                &&& exists|middle: Seq<StreamOperator>|
                    {
                        &&& #[trigger] drained(
                            before.ops,
                            before.queue,
                            outside,
                            middle,
                            after.queue,
                            Ok(None),
                        )
                        &&& watermarked(
                            middle,
                            before_views,
                            watermark,
                            after.ops,
                            after_views,
                            middle.len(),
                        )
                    }
            },
            Err(TickError::Operator(error)) => {
                &&& drained(before.ops, before.queue, outside, after.ops, after.queue, Err(error))
                &&& after_views == before_views
            },
            Err(TickError::Awaits(call)) => {
                &&& drained(
                    before.ops,
                    before.queue,
                    outside,
                    after.ops,
                    after.queue,
                    Ok(Some(call)),
                )
                &&& after_views == before_views
            },
            Err(_) => false,
        }
    }
}

/// The watermark of a source is taken: it moves the watermark of the source if it is larger, and
/// then the smallest watermark of all sources is taken.
pub open spec fn source_watermark_taken<E>(
    before: LoopState,
    before_views: MaterializedViewRegistry,
    source: Seq<char>,
    watermark: Timestamp,
    outside: OutsideView,
    after: LoopState,
    after_views: MaterializedViewRegistry,
    result: Result<Option<u64>, TickError<E>>,
) -> bool {
    if !before.watermarks.dom().contains(source) {
        &&& after == before
        &&& after_views == before_views
        &&& result == Err::<Option<u64>, TickError<E>>(TickError::NoWatermark)
    } else if watermark <= before.watermarks[source] {
        &&& after == before
        &&& after_views == before_views
        &&& result == Ok::<Option<u64>, TickError<E>>(None)
    } else {
        let moved = LoopState {
            watermarks: before.watermarks.insert(source, watermark),
            ..before
        };
        exists|frontier: Timestamp|
            {
                &&& is_frontier(moved.watermarks, moved.clock.watermark, frontier)
                &&& #[trigger] watermark_taken(
                    moved,
                    before_views,
                    frontier,
                    outside,
                    after,
                    after_views,
                    result,
                )
            }
    }
}

/// The clock moves to a watermark that is larger than its own, which makes a step.
pub open spec fn step_begun(
    before: LoopState,
    watermark: Timestamp,
    after: LoopState,
    step: Option<u64>,
) -> bool {
    if watermark <= before.clock.watermark {
        after == before && step is None
    } else {
        &&& after == (LoopState {
            clock: BarrierClock {
                watermark,
                step: if before.clock.step == u64::MAX {
                    u64::MAX
                } else {
                    (before.clock.step + 1) as u64
                },
            },
            ..before
        })
        &&& step == Some(after.clock.step)
    }
}

/// What is queued is handled, and the watermark of the clock goes to the operators. Where a queued
/// row waits for the result of an operation on floats, the operation is answered, and the step is
/// still to be finished.
pub open spec fn step_finished(
    before: LoopState,
    before_views: MaterializedViewRegistry,
    outside: OutsideView,
    after: LoopState,
    after_views: MaterializedViewRegistry,
    result: Result<Option<FloatCall>, OperatorError>,
) -> bool {
    &&& after == (LoopState { ops: after.ops, queue: after.queue, ..before })
    &&& match result {
        Ok(None) => exists|middle: Seq<StreamOperator>|
            {
                &&& #[trigger] drained(
                    before.ops,
                    before.queue,
                    outside,
                    middle,
                    after.queue,
                    Ok(None),
                )
                &&& watermarked(
                    middle,
                    before_views,
                    before.clock.watermark,
                    after.ops,
                    after_views,
                    middle.len(),
                )
            },
        _ => {
            &&& drained(before.ops, before.queue, outside, after.ops, after.queue, result)
            &&& after_views == before_views
        },
    }
}

/// The watermark of a source moves, and the clock with it to the frontier of the sources.
pub open spec fn source_step_begun<E>(
    before: LoopState,
    source: Seq<char>,
    watermark: Timestamp,
    after: LoopState,
    result: Result<Option<u64>, TickError<E>>,
) -> bool {
    if !before.watermarks.dom().contains(source) {
        &&& after == before
        &&& result == Err::<Option<u64>, TickError<E>>(TickError::NoWatermark)
    } else if watermark <= before.watermarks[source] {
        &&& after == before
        &&& result == Ok::<Option<u64>, TickError<E>>(None)
    } else {
        let moved = LoopState {
            watermarks: before.watermarks.insert(source, watermark),
            ..before
        };
        &&& result is Ok
        &&& exists|frontier: Timestamp|
            {
                &&& is_frontier(moved.watermarks, moved.clock.watermark, frontier)
                &&& #[trigger] step_begun(moved, frontier, after, result->Ok_0)
            }
    }
}

/// The loop after a row went into its scan: the operators that the scan feeds have it queued,
/// and the offset of the source is noted.
pub open spec fn row_taken(
    before: LoopState,
    source: Seq<char>,
    row: Seq<ScalarView>,
    timestamp: Timestamp,
    at: usize,
    after: LoopState,
) -> bool {
    &&& before.ops[at as int] is Scan
    &&& after.ops.len() == before.ops.len()
    &&& forall|i: int|
        0 <= i < before.ops.len() && i != at ==> #[trigger] after.ops[i] == before.ops[i]
    &&& StreamOperator::emptied(before.ops[at as int], after.ops[at as int])
    &&& after.queue == before.queue + operators::forwarded(
        before.ops[at as int].targets(),
        row,
        before.default_diff,
        timestamp,
    )
    &&& after.offsets == (match before.offsets {
        Some(offsets) => Some(offsets.insert(source, timestamp)),
        None => None,
    })
    &&& after.clock == before.clock
    &&& after.scans == before.scans
    &&& after.sources == before.sources
    &&& after.bindings == before.bindings
    &&& after.default_diff == before.default_diff
    &&& after.watermarks == before.watermarks
    &&& after.outer == before.outer
}

/// An event of a source is taken up to its watermark: its row goes into the scan of the source.
pub open spec fn event_ingested<E>(
    before: LoopState,
    source: Seq<char>,
    decoded: Result<(Row, Option<Timestamp>), E>,
    encoded: Option<Seq<u8>>,
    fallback: Timestamp,
    after: LoopState,
    result: Result<Timestamp, TickError<E>>,
) -> bool {
    if !before.bindings.dom().contains(source) {
        &&& after == before
        &&& result == Err::<Timestamp, TickError<E>>(TickError::Ingest(IngestError::NoScan))
    } else {
        match (decoded, with_outer(before, source, encoded)) {
            (Err(error), _) => {
                &&& after == before
                &&& result == Err::<Timestamp, TickError<E>>(
                    TickError::Ingest(IngestError::Decode(error)),
                )
            },
            (Ok(_), Err(_)) => {
                &&& after == before
                &&& result == Err::<Timestamp, TickError<E>>(TickError::NotEncoded)
            },
            (Ok(event), Ok(noted)) => {
                let handle = before.bindings[source];
                let row = values::row_view(event.0@);
                let timestamp = match event.1 {
                    Some(timestamp) => timestamp,
                    None => fallback,
                };
                match scan_of(before.scans, handle) {
                    None => {
                        &&& after == noted
                        &&& result == Err::<Timestamp, TickError<E>>(
                            TickError::NoScanOperator(handle),
                        )
                    },
                    Some(at) => if !(before.ops[at as int] is Scan) {
                        &&& after == noted
                        &&& result == Err::<Timestamp, TickError<E>>(TickError::NotAScan(at))
                    } else {
                        &&& row_taken(noted, source, row, timestamp, at, after)
                        &&& result == Ok::<Timestamp, TickError<E>>(timestamp)
                    },
                }
            },
        }
    }
}

/// A row went into its scan, and then its timestamp was taken as the watermark of the source.
pub open spec fn row_and_watermark_taken<E>(
    before: LoopState,
    before_views: MaterializedViewRegistry,
    source: Seq<char>,
    row: Seq<ScalarView>,
    timestamp: Timestamp,
    at: usize,
    outside: OutsideView,
    after: LoopState,
    after_views: MaterializedViewRegistry,
    result: Result<Option<u64>, TickError<E>>,
) -> bool {
    exists|middle: LoopState|
        {
            &&& #[trigger] row_taken(before, source, row, timestamp, at, middle)
            &&& source_watermark_taken(
                middle,
                before_views,
                source,
                timestamp,
                outside,
                after,
                after_views,
                result,
            )
        }
}

/// What writers hold, where there are any.
pub open spec fn stream_states(streams: Option<OuterStreamRegistry>) -> Option<Seq<WriterState>> {
    match streams {
        Some(registry) => Some(outer_stream::writer_states(registry.writers())),
        None => None,
    }
}

/// The loop after the writer of a source took a change of a row, of which the encoding is given if
/// it has one.
pub open spec fn with_outer(
    state: LoopState,
    source: Seq<char>,
    encoded: Option<Seq<u8>>,
) -> Result<LoopState, NotEncoded> {
    match state.outer {
        Some(writers) => match outer_stream::appended_row(
            writers,
            source,
            encoded,
            state.default_diff,
        ) {
            Ok(after) => Ok(LoopState { outer: Some(after), ..state }),
            Err(error) => Err(error),
        },
        None => Ok(state),
    }
}

/// An event of a source is taken: its row goes into the scan of the source, and its timestamp
/// moves the watermark of the source.
pub open spec fn event_taken<E>(
    before: LoopState,
    before_views: MaterializedViewRegistry,
    source: Seq<char>,
    decoded: Result<(Row, Option<Timestamp>), E>,
    encoded: Option<Seq<u8>>,
    fallback: Timestamp,
    outside: OutsideView,
    after: LoopState,
    after_views: MaterializedViewRegistry,
    result: Result<Option<u64>, TickError<E>>,
) -> bool {
    if !before.bindings.dom().contains(source) {
        &&& after == before
        &&& after_views == before_views
        &&& result == Err::<Option<u64>, TickError<E>>(TickError::Ingest(IngestError::NoScan))
    } else {
        match (decoded, with_outer(before, source, encoded)) {
            (Err(error), _) => {
                &&& after == before
                &&& after_views == before_views
                &&& result == Err::<Option<u64>, TickError<E>>(
                    TickError::Ingest(IngestError::Decode(error)),
                )
            },
            (Ok(_), Err(_)) => {
                &&& after == before
                &&& after_views == before_views
                &&& result == Err::<Option<u64>, TickError<E>>(TickError::NotEncoded)
            },
            (Ok(event), Ok(noted)) => {
                let handle = before.bindings[source];
                let row = values::row_view(event.0@);
                let timestamp = match event.1 {
                    Some(timestamp) => timestamp,
                    None => fallback,
                };
                match scan_of(before.scans, handle) {
                    None => {
                        &&& after == noted
                        &&& after_views == before_views
                        &&& result == Err::<Option<u64>, TickError<E>>(
                            TickError::NoScanOperator(handle),
                        )
                    },
                    Some(at) => if !(before.ops[at as int] is Scan) {
                        &&& after == noted
                        &&& after_views == before_views
                        &&& result == Err::<Option<u64>, TickError<E>>(TickError::NotAScan(at))
                    } else {
                        row_and_watermark_taken(
                            noted,
                            before_views,
                            source,
                            row,
                            timestamp,
                            at,
                            outside,
                            after,
                            after_views,
                            result,
                        )
                    },
                }
            },
        }
    }
}

/// The clock is not ahead of any source.
pub open spec fn behind_sources(state: LoopState) -> bool {
    forall|source: Seq<char>|
        #[trigger] state.watermarks.dom().contains(source) ==> state.clock.watermark
            <= state.watermarks[source]
}

/// The sources are the same, and none of their watermarks fell.
pub open spec fn sources_moved_forward(before: LoopState, after: LoopState) -> bool {
    &&& after.watermarks.dom() == before.watermarks.dom()
    &&& forall|source: Seq<char>|
        #[trigger] before.watermarks.dom().contains(source) ==> before.watermarks[source]
            <= after.watermarks[source]
}

proof fn lemma_source_watermark_forward<E>(
    before: LoopState,
    before_views: MaterializedViewRegistry,
    source: Seq<char>,
    watermark: Timestamp,
    outside: OutsideView,
    after: LoopState,
    after_views: MaterializedViewRegistry,
    result: Result<Option<u64>, TickError<E>>,
)
    requires
        source_watermark_taken(
            before,
            before_views,
            source,
            watermark,
            outside,
            after,
            after_views,
            result,
        ),
    ensures
        before.clock.watermark <= after.clock.watermark,
        sources_moved_forward(before, after),
        behind_sources(before) ==> behind_sources(after),
        result matches Ok(Some(step)) ==> before.clock.watermark < after.clock.watermark,
{
    if before.watermarks.dom().contains(source) && watermark > before.watermarks[source] {
        let moved = LoopState {
            watermarks: before.watermarks.insert(source, watermark),
            ..before
        };
        let frontier = choose|frontier: Timestamp|
            {
                &&& is_frontier(moved.watermarks, moved.clock.watermark, frontier)
                &&& #[trigger] watermark_taken(
                    moved,
                    before_views,
                    frontier,
                    outside,
                    after,
                    after_views,
                    result,
                )
            };
        assert(watermark_taken(moved, before_views, frontier, outside, after, after_views, result));
        assert(moved.watermarks.dom() =~= before.watermarks.dom());
        assert(moved.watermarks.dom().contains(source));
        assert(after.watermarks == moved.watermarks);
    }
}

/// Time moves forward: taking an event, neither the clock nor the watermark of a source falls, a
/// step is made only where the clock moves, and the clock does not overtake the slowest source.
pub proof fn law_event_moves_time_forward<E>(
    before: LoopState,
    before_views: MaterializedViewRegistry,
    source: Seq<char>,
    decoded: Result<(Row, Option<Timestamp>), E>,
    encoded: Option<Seq<u8>>,
    fallback: Timestamp,
    outside: OutsideView,
    after: LoopState,
    after_views: MaterializedViewRegistry,
    result: Result<Option<u64>, TickError<E>>,
)
    requires
        event_taken(
            before,
            before_views,
            source,
            decoded,
            encoded,
            fallback,
            outside,
            after,
            after_views,
            result,
        ),
    ensures
        before.clock.watermark <= after.clock.watermark,
        sources_moved_forward(before, after),
        behind_sources(before) ==> behind_sources(after),
        result matches Ok(Some(step)) ==> before.clock.watermark < after.clock.watermark,
{
    if before.bindings.dom().contains(source) && decoded is Ok && with_outer(
        before,
        source,
        encoded,
    ) is Ok {
        let event = decoded->Ok_0;
        let row = values::row_view(event.0@);
        let noted = with_outer(before, source, encoded)->Ok_0;
        let timestamp = match event.1 {
            Some(timestamp) => timestamp,
            None => fallback,
        };
        match scan_of(before.scans, before.bindings[source]) {
            Some(at) if before.ops[at as int] is Scan => {
                let middle = choose|middle: LoopState|
                    {
                        &&& #[trigger] row_taken(noted, source, row, timestamp, at, middle)
                        &&& source_watermark_taken(
                            middle,
                            before_views,
                            source,
                            timestamp,
                            outside,
                            after,
                            after_views,
                            result,
                        )
                    };
                assert(row_taken(noted, source, row, timestamp, at, middle));
                lemma_source_watermark_forward(
                    middle,
                    before_views,
                    source,
                    timestamp,
                    outside,
                    after,
                    after_views,
                    result,
                );
            },
            _ => {},
        }
    }
}

/// The watermarks and offsets after the sources of the first `n` bindings start: each at its
/// offset, or at zero.
pub open spec fn started(
    watermarks: Map<Seq<char>, Timestamp>,
    offsets: Option<Map<Seq<char>, Timestamp>>,
    bindings: Seq<(String, RowStreamHandle)>,
    n: nat,
) -> (Map<Seq<char>, Timestamp>, Option<Map<Seq<char>, Timestamp>>)
    decreases n,
{
    if n == 0 {
        (watermarks, offsets)
    } else {
        let (marks, known) = started(watermarks, offsets, bindings, (n - 1) as nat);
        let source = bindings[n - 1].0@;
        match known {
            Some(kept) => {
                let initial = if kept.dom().contains(source) {
                    kept[source]
                } else {
                    0
                };
                (marks.insert(source, initial), Some(kept.insert(source, initial)))
            },
            None => (marks.insert(source, 0), None),
        }
    }
}

/// The next queued event, if there is one, is handled, or the operation on floats is answered
/// whose result it waits for.
pub open spec fn next_dispatched(
    before: LoopState,
    floats: FloatMath,
    encodable: Encodable,
    after: LoopState,
    result: Result<Option<FloatCall>, OperatorError>,
) -> bool {
    if before.queue.len() == 0 {
        after == before && result == Ok::<Option<FloatCall>, OperatorError>(None)
    } else {
        match awaited_first(before.ops, before.queue, floats, encodable) {
            Some(call) => {
                &&& after == before
                &&& result == Ok::<Option<FloatCall>, OperatorError>(Some(call))
            },
            None => {
                &&& after == (LoopState { ops: after.ops, queue: after.queue, ..before })
                &&& exists|outcome: Result<(), OperatorError>|
                    {
                        &&& #[trigger] dispatched(
                            before.ops,
                            before.queue,
                            floats,
                            encodable,
                            after.ops,
                            after.queue,
                            outcome,
                        )
                        &&& result == match outcome {
                            Ok(_) => Ok::<Option<FloatCall>, OperatorError>(None),
                            Err(error) => Err(error),
                        }
                    }
            },
        }
    }
}

/// Runs the operators of a dataflow.
pub struct TickLoop {
    runtime: ExecutionRuntime,
    barrier_clock: BarrierClock,
    ops: Vec<StreamOperator>,
    queue: EventQueue,
    scan_operators: Vec<(RowStreamHandle, usize)>,
    source_watermarks: NameMap<Timestamp>,
    /// How far each source got, where checkpoints are made.
    offsets: Option<NameMap<Timestamp>>,
    /// The writers of the changes of the sources, where these are stored.
    outer_streams: Option<OuterStreamRegistry>,
}

impl View for TickLoop {
    type V = LoopState;

    closed spec fn view(&self) -> LoopState {
        LoopState {
            ops: self.ops@,
            queue: operators::event_views(self.queue@),
            clock: self.barrier_clock,
            scans: self.scan_operators@,
            sources: self.runtime.scan_runtime.sources@,
            bindings: self.runtime.scan_runtime.bindings@,
            default_diff: self.runtime.scan_runtime.default_diff,
            watermarks: self.source_watermarks@,
            offsets: match self.offsets {
                Some(offsets) => Some(offsets@),
                None => None,
            },
            outer: stream_states(self.outer_streams),
        }
    }
}

impl TickLoop {
    /// Operators feed operators behind them, and what is queued goes to operators that there
    /// are.
    #[verifier::type_invariant]
    spec fn runs_forward(self) -> bool {
        &&& graph_builder::flows_forward(self.ops@)
        &&& stream_operator::within(
            operators::event_views(self.queue@),
            0,
            self.ops@.len() as int,
        )
        &&& scans_within(self.scan_operators@, self.ops@.len())
    }

    /// A loop that runs operators; with offsets it makes checkpoints.
    pub fn with_graph(
        runtime: ExecutionRuntime,
        ops: Vec<StreamOperator>,
        scan_operators: Vec<(RowStreamHandle, usize)>,
        outer_streams: Option<OuterStreamRegistry>,
        offsets: Option<NameMap<Timestamp>>,
    ) -> (tick: Self)
        requires
            graph_builder::flows_forward(ops@),
            scans_within(scan_operators@, ops@.len()),
        ensures
            tick@ == (LoopState {
                ops: ops@,
                queue: Seq::empty(),
                clock: BarrierClock { watermark: 0, step: 0 },
                scans: scan_operators@,
                sources: runtime.scan_runtime.sources@,
                bindings: runtime.scan_runtime.bindings@,
                default_diff: runtime.scan_runtime.default_diff,
                watermarks: Map::empty(),
                offsets: match offsets {
                    Some(kept) => Some(kept@),
                    None => None,
                },
                outer: stream_states(outer_streams),
            }),
    {
        let queue: EventQueue = VecDeque::new();
        assert(operators::event_views(queue@) =~= Seq::<EventView>::empty());
        TickLoop {
            runtime,
            barrier_clock: BarrierClock::new(),
            ops,
            queue,
            scan_operators,
            source_watermarks: NameMap::new(),
            offsets,
            outer_streams,
        }
    }

    /// Starts at a watermark that was reached before.
    pub fn bootstrap(&mut self, watermark: Timestamp)
        ensures
            final(self)@ == (LoopState {
                clock: BarrierClock { watermark, ..old(self)@.clock },
                ..old(self)@
            }),
    {
        proof {
            use_type_invariant(&*self);
        }
        let mut clock: BarrierClock = self.barrier_clock;
        clock.bootstrap(watermark);
        self.barrier_clock = clock;
    }

    /// The watermark of the clock.
    pub fn current_watermark(&self) -> (watermark: Timestamp)
        ensures
            watermark == self@.clock.watermark,
    {
        self.barrier_clock.watermark
    }

    /// How far each source got, for a checkpoint; nothing where none is made.
    pub fn snapshot_source_offsets(&self) -> (offsets: Vec<(String, Timestamp)>)
        ensures
            match self@.offsets {
                Some(known) => name_map::distinct_names(name_map::named(offsets@))
                    && name_map::map_of(name_map::named(offsets@)) == known,
                None => offsets@.len() == 0,
            },
    {
        let mut offsets: Vec<(String, Timestamp)> = Vec::new();
        if let Some(known) = &self.offsets {
            let count: usize = known.len();
            let mut i: usize = 0;
            while i < count
                invariant
                    i <= count,
                    count == known.entries().len(),
                    name_map::named(offsets@) == known.entries().take(i as int),
                decreases count - i,
            {
                let (source, offset) = known.entry(i);
                let ghost before = offsets@;
                offsets.push((String::from_str(source), *offset));
                assert(name_map::named(offsets@) =~= name_map::named(before).push(
                    known.entries()[i as int],
                ));
                assert(known.entries().take(i + 1) =~= known.entries().take(i as int).push(
                    known.entries()[i as int],
                ));
                i = i + 1;
            }
            assert(known.entries().take(count as int) =~= known.entries());
        }
        offsets
    }

    /// The operators.
    pub fn ops(&self) -> (ops: &Vec<StreamOperator>)
        ensures
            ops@ == self@.ops,
    {
        &self.ops
    }

    /// The queued event that is handled next.
    pub fn next_event(&self) -> (event: Option<&DispatchEvent>)
        ensures
            match event {
                Some(next) => self@.queue.len() > 0 && next@ == self@.queue[0]
                    && next.target_op_index < self@.ops.len(),
                None => self@.queue.len() == 0,
            },
    {
        proof {
            use_type_invariant(self);
        }
        if self.queue.len() == 0 {
            None
        } else {
            assert(operators::event_views(self.queue@)[0] == self.queue@[0]@);
            Some(&self.queue[0])
        }
    }

    /// Handles the next queued event, if there is one. Where that needs the result of an operation
    /// on floats, nothing happens, and the operation is answered.
    pub fn dispatch_next(&mut self, floats: &FloatResults, encodable: Encodable) -> (result:
        Result<Option<FloatCall>, OperatorError>)
        ensures
            next_dispatched(old(self)@, floats@, encodable, final(self)@, result),
    {
        proof {
            use_type_invariant(&*self);
        }
        if self.queue.len() == 0 {
            return Ok(None);
        }
        let ghost before = self@;
        assert(before.queue[0] == self.queue@[0]@);
        let at: usize = self.queue[0].target_op_index;
        match self.ops[at].awaited(
            self.queue[0].input_port,
            &self.queue[0].row,
            self.queue[0].diff,
            floats,
            encodable,
        ) {
            Some(call) => {
                return Ok(Some(call));
            },
            None => {},
        }
        let mut queue: EventQueue = VecDeque::new();
        let mut ops: Vec<StreamOperator> = Vec::new();
        let mut scans: Vec<(RowStreamHandle, usize)> = Vec::new();
        assert(operators::event_views(queue@) =~= Seq::<EventView>::empty());
        std::mem::swap(&mut queue, &mut self.queue);
        std::mem::swap(&mut scans, &mut self.scan_operators);
        std::mem::swap(&mut ops, &mut self.ops);
        let result = dispatch_first(&mut ops, &mut queue, floats, encodable);
        self.ops = ops;
        self.scan_operators = scans;
        self.queue = queue;
        assert(dispatched(
            before.ops,
            before.queue,
            floats@,
            encodable,
            self@.ops,
            self@.queue,
            result,
        ));
        match result {
            Ok(()) => Ok(None),
            Err(error) => Err(error),
        }
    }

    /// Handles the queued events, with those that come up meanwhile. Where one needs the result of
    /// an operation on floats that is not there, the operation is answered, and that event and
    /// those behind it stay queued.
    pub fn drain_queue(&mut self, outside: &OutsideResults) -> (result: Result<
        Option<FloatCall>,
        OperatorError,
    >)
        ensures
            drained(
                old(self)@.ops,
                old(self)@.queue,
                outside@,
                final(self)@.ops,
                final(self)@.queue,
                result,
            ),
            final(self)@ == (LoopState {
                ops: final(self)@.ops,
                queue: final(self)@.queue,
                ..old(self)@
            }),
    {
        proof {
            use_type_invariant(&*self);
        }
        let ghost before = self@;
        let mut queue: EventQueue = VecDeque::new();
        let mut ops: Vec<StreamOperator> = Vec::new();
        let mut scans: Vec<(RowStreamHandle, usize)> = Vec::new();
        assert(operators::event_views(queue@) =~= Seq::<EventView>::empty());
        std::mem::swap(&mut queue, &mut self.queue);
        std::mem::swap(&mut scans, &mut self.scan_operators);
        std::mem::swap(&mut ops, &mut self.ops);
        let result = drain(&mut ops, &mut queue, outside);
        self.ops = ops;
        self.scan_operators = scans;
        self.queue = queue;
        result
    }
}

/// Hands a watermark to the operators, one after the other.
fn pass_watermark(
    ops: &mut Vec<StreamOperator>,
    registry: &mut MaterializedViewRegistry,
    watermark: Timestamp,
) -> (result: Result<(), OperatorError>)
    requires
        views_present(old(ops)@, *old(registry)),
        graph_builder::flows_forward(old(ops)@),
    ensures
        result is Ok,
        watermarked(
            old(ops)@,
            *old(registry),
            watermark,
            final(ops)@,
            *final(registry),
            old(ops)@.len(),
        ),
        graph_builder::flows_forward(final(ops)@),
{
    let ghost before_ops = ops@;
    let ghost before = *registry;
    let mut i: usize = 0;
    assert forall|v: int| 0 <= v < before.views().len() implies view_watermarked(
        before.views()[v],
        kept_by(before_ops, v, 0),
        watermark,
        #[trigger] before.views()[v],
    ) by {
        assert(!kept_by(before_ops, v, 0));
    }
    while i < ops.len()
        invariant
            i <= ops@.len(),
            ops@.len() == before_ops.len(),
            before_ops == old(ops)@,
            before == *old(registry),
            views_present(before_ops, before),
            graph_builder::flows_forward(before_ops),
            watermarked(before_ops, before, watermark, ops@, *registry, i as nat),
        decreases ops@.len() - i,
    {
        let ghost middle_ops = ops@;
        let ghost middle = *registry;
        assert(same_operator(before_ops[i as int], ops@[i as int]));
        match &mut ops[i] {
            StreamOperator::Materialize(op) => {
                assert(op.view < before.views().len());
                match op.on_watermark(registry, watermark) {
                    Ok(()) => {},
                    Err(error) => {
                        return Err(error);
                    },
                }
            },
            _ => {},
        }
        proof {
            assert forall|j: int| 0 <= j < before_ops.len() implies same_operator(
                before_ops[j],
                #[trigger] ops@[j],
            ) by {
                assert(same_operator(before_ops[j], middle_ops[j]));
                if j != i {
                    assert(ops@[j] == middle_ops[j]);
                }
            }
            assert forall|v: int| 0 <= v < before.views().len() implies view_watermarked(
                before.views()[v],
                kept_by(before_ops, v, (i + 1) as nat),
                watermark,
                #[trigger] registry.views()[v],
            ) by {
                assert(view_watermarked(
                    before.views()[v],
                    kept_by(before_ops, v, i as nat),
                    watermark,
                    middle.views()[v],
                ));
                if kept_by(before_ops, v, i as nat) {
                    let w = choose|w: int|
                        0 <= w < i && ((#[trigger] before_ops[w]) matches StreamOperator::Materialize(
                            op,
                        ) && op.view == v);
                    assert(0 <= w < i + 1);
                    assert(kept_by(before_ops, v, (i + 1) as nat));
                }
                match before_ops[i as int] {
                    StreamOperator::Materialize(op) => {
                        if op.view == v {
                            assert(kept_by(before_ops, v, (i + 1) as nat));
                        } else {
                            assert(registry.views()[v] == middle.views()[v]);
                            if kept_by(before_ops, v, (i + 1) as nat) {
                                let w = choose|w: int|
                                    0 <= w < i + 1 && ((
                                    #[trigger] before_ops[w]) matches StreamOperator::Materialize(
                                        op,
                                    ) && op.view == v);
                                assert(w != i);
                                assert(kept_by(before_ops, v, i as nat));
                            }
                        }
                    },
                    _ => {
                        assert(registry.views()[v] == middle.views()[v]);
                        if kept_by(before_ops, v, (i + 1) as nat) {
                            let w = choose|w: int|
                                0 <= w < i + 1 && ((
                                #[trigger] before_ops[w]) matches StreamOperator::Materialize(op)
                                    && op.view == v);
                            assert(w != i);
                            assert(kept_by(before_ops, v, i as nat));
                        }
                    },
                }
            }
        }
        i = i + 1;
    }
    proof {
        assert forall|j: int| 0 <= j < ops@.len() implies stream_operator::targets_within(
            (#[trigger] ops@[j]).targets(),
            j + 1,
            ops@.len() as int,
        ) && ops@[j].pending().len() == 0 by {
            assert(same_operator(before_ops[j], ops@[j]));
            assert(stream_operator::targets_within(
                before_ops[j].targets(),
                j + 1,
                ops@.len() as int,
            ));
        }
    }
    Ok(())
}

/// Operators keep the views that they kept.
pub open spec fn same_views(before: Seq<StreamOperator>, after: Seq<StreamOperator>) -> bool {
    &&& after.len() == before.len()
    &&& forall|i: int|
        0 <= i < before.len() ==> match (before[i], #[trigger] after[i]) {
            (StreamOperator::Materialize(b), StreamOperator::Materialize(a)) => a.view == b.view,
            (StreamOperator::Materialize(_), _) => false,
            (_, StreamOperator::Materialize(_)) => false,
            _ => true,
        }
}

proof fn lemma_dispatched_same_views(
    before_ops: Seq<StreamOperator>,
    before_queue: Seq<EventView>,
    floats: FloatMath,
    encodable: Encodable,
    after_ops: Seq<StreamOperator>,
    after_queue: Seq<EventView>,
    result: Result<(), OperatorError>,
)
    requires
        dispatched(
            before_ops,
            before_queue,
            floats,
            encodable,
            after_ops,
            after_queue,
            result,
        ),
    ensures
        same_views(before_ops, after_ops),
{
    let event = before_queue[0];
    let at = event.target_op_index as int;
    assert forall|i: int| 0 <= i < before_ops.len() implies match (
        before_ops[i],
        #[trigger] after_ops[i],
    ) {
        (StreamOperator::Materialize(b), StreamOperator::Materialize(a)) => a.view == b.view,
        (StreamOperator::Materialize(_), _) => false,
        (_, StreamOperator::Materialize(_)) => false,
        _ => true,
    } by {
        if i != at {
            assert(after_ops[i] == before_ops[i]);
        }
    }
}

proof fn lemma_reached_same_views(
    before_ops: Seq<StreamOperator>,
    before_queue: Seq<EventView>,
    outside: OutsideView,
    ops: Seq<StreamOperator>,
    queue: Seq<EventView>,
    steps: nat,
)
    requires
        reached(before_ops, before_queue, outside, ops, queue, steps),
    ensures
        same_views(before_ops, ops),
    decreases steps,
{
    if steps > 0 {
        let (middle_ops, middle_queue, outcome) = choose|
            middle_ops: Seq<StreamOperator>,
            middle_queue: Seq<EventView>,
            outcome: Result<(), OperatorError>,
        |
            reached(before_ops, before_queue, outside, middle_ops, middle_queue, (steps - 1) as nat)
                && #[trigger] dispatched(
                middle_ops,
                middle_queue,
                outside.floats,
                outside.encodable_at((steps - 1) as nat),
                ops,
                queue,
                outcome,
            ) && outcome is Ok;
        lemma_reached_same_views(
            before_ops,
            before_queue,
            outside,
            middle_ops,
            middle_queue,
            (steps - 1) as nat,
        );
        lemma_dispatched_same_views(
            middle_ops,
            middle_queue,
            outside.floats,
            outside.encodable_at((steps - 1) as nat),
            ops,
            queue,
            outcome,
        );
        assert forall|i: int| 0 <= i < before_ops.len() implies match (
            before_ops[i],
            #[trigger] ops[i],
        ) {
            (StreamOperator::Materialize(b), StreamOperator::Materialize(a)) => a.view == b.view,
            (StreamOperator::Materialize(_), _) => false,
            (_, StreamOperator::Materialize(_)) => false,
            _ => true,
        } by {
            let m = middle_ops[i];
            assert(match (before_ops[i], m) {
                (StreamOperator::Materialize(b), StreamOperator::Materialize(a)) => a.view
                    == b.view,
                (StreamOperator::Materialize(_), _) => false,
                (_, StreamOperator::Materialize(_)) => false,
                _ => true,
            });
        }
    }
}

/// Handling events does not change which views the operators keep.
pub proof fn lemma_drained_same_views(
    before_ops: Seq<StreamOperator>,
    before_queue: Seq<EventView>,
    outside: OutsideView,
    ops: Seq<StreamOperator>,
    queue: Seq<EventView>,
    result: Result<Option<FloatCall>, OperatorError>,
)
    requires
        drained(before_ops, before_queue, outside, ops, queue, result),
        result is Ok,
    ensures
        same_views(before_ops, ops),
{
    let steps = choose|steps: nat|
        #[trigger] reached(before_ops, before_queue, outside, ops, queue, steps);
    lemma_reached_same_views(before_ops, before_queue, outside, ops, queue, steps);
}

impl TickLoop {
    /// Moves the clock to a watermark; answers the step that this makes, if it makes one. The step
    /// is still to be finished.
    pub fn begin_step(&mut self, watermark: Timestamp) -> (step: Option<u64>)
        ensures
            step_begun(old(self)@, watermark, final(self)@, step),
    {
        proof {
            use_type_invariant(&*self);
        }
        let mut clock: BarrierClock = self.barrier_clock;
        let step = clock.advance(watermark);
        self.barrier_clock = clock;
        step
    }

    /// Finishes a step: handles what is queued, and hands the watermark of the clock to the
    /// operators. Where a queued event needs the result of an operation on floats that is not
    /// there, the operation is answered, and the step is still to be finished.
    pub fn finish_step(
        &mut self,
        registry: &mut MaterializedViewRegistry,
        outside: &OutsideResults,
    ) -> (result: Result<Option<FloatCall>, OperatorError>)
        requires
            views_present(old(self)@.ops, *old(registry)),
        ensures
            step_finished(
                old(self)@,
                *old(registry),
                outside@,
                final(self)@,
                *final(registry),
                result,
            ),
    {
        proof {
            use_type_invariant(&*self);
        }
        let ghost before = self@;
        let watermark: Timestamp = self.barrier_clock.watermark;
        let drained_result = self.drain_queue(outside);
        match drained_result {
            Ok(None) => {},
            _ => {
                return drained_result;
            },
        }
        let ghost middle = self@.ops;
        proof {
            use_type_invariant(&*self);
            lemma_drained_same_views(
                before.ops,
                before.queue,
                outside@,
                middle,
                self@.queue,
                drained_result,
            );
            assert forall|i: int| 0 <= i < middle.len() implies ((
            #[trigger] middle[i]) matches StreamOperator::Materialize(op) ==> op.view
                < registry.views().len()) by {
                let first = before.ops[i];
                assert(match (first, middle[i]) {
                    (StreamOperator::Materialize(b), StreamOperator::Materialize(a)) => a.view
                        == b.view,
                    (StreamOperator::Materialize(_), _) => false,
                    (_, StreamOperator::Materialize(_)) => false,
                    _ => true,
                });
                assert(first matches StreamOperator::Materialize(op) ==> op.view
                    < registry.views().len());
            }
        }
        let mut queue: EventQueue = VecDeque::new();
        let mut ops: Vec<StreamOperator> = Vec::new();
        let mut scans: Vec<(RowStreamHandle, usize)> = Vec::new();
        assert(operators::event_views(queue@) =~= Seq::<EventView>::empty());
        std::mem::swap(&mut queue, &mut self.queue);
        std::mem::swap(&mut scans, &mut self.scan_operators);
        std::mem::swap(&mut ops, &mut self.ops);
        let passed = pass_watermark(&mut ops, registry, watermark);
        self.ops = ops;
        self.scan_operators = scans;
        self.queue = queue;
        assert(drained(before.ops, before.queue, outside@, middle, self@.queue, Ok(None)));
        match passed {
            Ok(()) => Ok(None),
            Err(error) => Err(error),
        }
    }

    /// Takes a watermark; answers the step to be sealed, if it makes one. Where a queued event
    /// waits for the result of an operation on floats, `finish_step` goes on with it.
    pub fn advance_watermark<E>(
        &mut self,
        registry: &mut MaterializedViewRegistry,
        watermark: Timestamp,
        outside: &OutsideResults,
    ) -> (result: Result<Option<u64>, TickError<E>>)
        requires
            views_present(old(self)@.ops, *old(registry)),
        ensures
            watermark_taken(
                old(self)@,
                *old(registry),
                watermark,
                outside@,
                final(self)@,
                *final(registry),
                result,
            ),
    {
        match self.begin_step(watermark) {
            None => Ok(None),
            Some(step) => match self.finish_step(registry, outside) {
                Ok(None) => Ok(Some(step)),
                Ok(Some(call)) => Err(TickError::Awaits(call)),
                Err(error) => Err(TickError::Operator(error)),
            },
        }
    }

    /// The smallest watermark of the sources; without sources, the clock's.
    pub fn current_frontier(&self) -> (frontier: Timestamp)
        ensures
            is_frontier(self@.watermarks, self@.clock.watermark, frontier),
    {
        let count: usize = self.source_watermarks.len();
        let ghost entries = self.source_watermarks.entries();
        let mut frontier: Timestamp = self.barrier_clock.watermark;
        let mut i: usize = 0;
        while i < count
            invariant
                i <= count,
                count == entries.len(),
                entries == self.source_watermarks.entries(),
                name_map::distinct_names(entries),
                i == 0 ==> frontier == self.barrier_clock.watermark,
                i > 0 ==> exists|j: int| 0 <= j < i && (#[trigger] entries[j]).1 == frontier,
                forall|j: int| 0 <= j < i ==> frontier <= (#[trigger] entries[j]).1,
            decreases count - i,
        {
            let (_, mark) = self.source_watermarks.entry(i);
            if i == 0 || *mark < frontier {
                frontier = *mark;
                assert(entries[i as int].1 == frontier);
            }
            i = i + 1;
        }
        proof {
            let map = self.source_watermarks@;
            if count == 0 {
                assert(map.dom() =~= Set::<Seq<char>>::empty());
            } else {
                let j = choose|j: int| 0 <= j < count && (#[trigger] entries[j]).1 == frontier;
                name_map::lemma_map_of_at(entries, j);
                assert(map.dom().contains(entries[j].0));
                assert forall|source: Seq<char>| #[trigger]
                    map.dom().contains(source) implies frontier <= map[source] by {
                    name_map::lemma_map_of_names(entries, source);
                    let k = choose|k: int|
                        0 <= k < entries.len() && (#[trigger] entries[k]).0 == source;
                    name_map::lemma_map_of_at(entries, k);
                }
            }
        }
        frontier
    }

    /// Moves the watermark of a source, and the clock to the frontier of the sources; answers the
    /// step that this makes, if it makes one. The step is still to be finished.
    pub fn begin_source_step<E>(&mut self, source: &str, watermark: Timestamp) -> (result: Result<
        Option<u64>,
        TickError<E>,
    >)
        ensures
            source_step_begun(old(self)@, source@, watermark, final(self)@, result),
    {
        proof {
            use_type_invariant(&*self);
        }
        let ghost before = self@;
        match self.source_watermarks.get(source) {
            None => {
                return Err(TickError::NoWatermark);
            },
            Some(mark) => {
                if watermark <= *mark {
                    return Ok(None);
                }
            },
        }
        let mut marks: NameMap<Timestamp> = NameMap::new();
        std::mem::swap(&mut marks, &mut self.source_watermarks);
        let _ = marks.insert(String::from_str(source), watermark);
        self.source_watermarks = marks;
        let frontier: Timestamp = self.current_frontier();
        let ghost moved = self@;
        assert(moved == (LoopState {
            watermarks: before.watermarks.insert(source@, watermark),
            ..before
        }));
        let step = self.begin_step(frontier);
        assert(is_frontier(moved.watermarks, moved.clock.watermark, frontier));
        let result: Result<Option<u64>, TickError<E>> = Ok(step);
        assert(step_begun(moved, frontier, self@, result->Ok_0));
        result
    }

    /// Takes the watermark of a source; answers the step to be sealed, if it makes one. Where a
    /// queued event waits for the result of an operation on floats, `finish_step` goes on with it.
    pub fn advance_source_watermark<E>(
        &mut self,
        registry: &mut MaterializedViewRegistry,
        source: &str,
        watermark: Timestamp,
        outside: &OutsideResults,
    ) -> (result: Result<Option<u64>, TickError<E>>)
        requires
            views_present(old(self)@.ops, *old(registry)),
        ensures
            source_watermark_taken(
                old(self)@,
                *old(registry),
                source@,
                watermark,
                outside@,
                final(self)@,
                *final(registry),
                result,
            ),
    {
        let ghost before = self@;
        let ghost views = *registry;
        let begun: Result<Option<u64>, TickError<E>> = self.begin_source_step(source, watermark);
        let ghost middle = self@;
        let result = match begun {
            Err(error) => Err(error),
            Ok(None) => Ok(None),
            Ok(Some(step)) => match self.finish_step(registry, outside) {
                Ok(None) => Ok(Some(step)),
                Ok(Some(call)) => Err(TickError::Awaits(call)),
                Err(error) => Err(TickError::Operator(error)),
            },
        };
        proof {
            if before.watermarks.dom().contains(source@) && watermark > before.watermarks[source@] {
                let moved = LoopState {
                    watermarks: before.watermarks.insert(source@, watermark),
                    ..before
                };
                let frontier = choose|frontier: Timestamp|
                    {
                        &&& is_frontier(moved.watermarks, moved.clock.watermark, frontier)
                        &&& #[trigger] step_begun(moved, frontier, middle, begun->Ok_0)
                    };
                assert(step_begun(moved, frontier, middle, begun->Ok_0));
                assert(watermark_taken(moved, views, frontier, outside@, self@, *registry, result));
            }
        }
        result
    }
}

impl TickLoop {
    /// Registers the streams of scans, and starts their sources where they stopped: at their
    /// offsets, or at zero.
    pub fn register_bindings(&mut self, bindings: &Vec<(String, RowStreamHandle)>) -> (result:
        Result<(), IngestError<()>>)
        ensures
            ({
                let (bound, outcome) = ingest::bound(
                    old(self)@.sources,
                    old(self)@.bindings,
                    bindings@,
                    bindings@.len(),
                );
                let (marks, offsets) = if outcome is Ok {
                    started(
                        old(self)@.watermarks,
                        old(self)@.offsets,
                        bindings@,
                        bindings@.len(),
                    )
                } else {
                    (old(self)@.watermarks, old(self)@.offsets)
                };
                &&& result == outcome
                &&& final(self)@ == (LoopState {
                    bindings: bound,
                    watermarks: marks,
                    offsets,
                    ..old(self)@
                })
            }),
    {
        proof {
            use_type_invariant(&*self);
        }
        let ghost before = self@;
        let mut runtime = ExecutionRuntime::new(ScanRuntime::new(Vec::new()));
        std::mem::swap(&mut runtime, &mut self.runtime);
        let registered = runtime.register_bindings(bindings);
        self.runtime = runtime;
        match registered {
            Ok(()) => {},
            Err(error) => {
                return Err(error);
            },
        }
        let mut marks: NameMap<Timestamp> = NameMap::new();
        std::mem::swap(&mut marks, &mut self.source_watermarks);
        let mut offsets: Option<NameMap<Timestamp>> = None;
        std::mem::swap(&mut offsets, &mut self.offsets);
        let mut i: usize = 0;
        while i < bindings.len()
            invariant
                i <= bindings@.len(),
                (marks@, opt_map(offsets)) == started(
                    before.watermarks,
                    before.offsets,
                    bindings@,
                    i as nat,
                ),
            decreases bindings@.len() - i,
        {
            let mut initial: Timestamp = 0;
            match offsets.take() {
                Some(mut kept) => {
                    match kept.get(bindings[i].0.as_str()) {
                        Some(offset) => {
                            initial = *offset;
                        },
                        None => {},
                    }
                    let _ = kept.insert(bindings[i].0.clone(), initial);
                    offsets = Some(kept);
                },
                None => {},
            }
            let _ = marks.insert(bindings[i].0.clone(), initial);
            i = i + 1;
        }
        self.source_watermarks = marks;
        self.offsets = offsets;
        Ok(())
    }

    /// The operator that takes the rows of a stream.
    fn find_scan(&self, handle: RowStreamHandle) -> (at: Option<usize>)
        ensures
            at == scan_of(self@.scans, handle),
            at matches Some(index) ==> index < self@.ops.len(),
    {
        proof {
            use_type_invariant(self);
        }
        let ghost scans = self.scan_operators@;
        let mut i: usize = self.scan_operators.len();
        assert(scans.take(i as int) =~= scans);
        while i > 0
            invariant
                i <= scans.len(),
                scans == self.scan_operators@,
                scans_within(scans, self.ops@.len()),
                scan_of(scans, handle) == scan_of(scans.take(i as int), handle),
            decreases i,
        {
            i = i - 1;
            proof {
                let part = scans.take(i + 1);
                assert(part.drop_last() =~= scans.take(i as int));
                assert(part.last() == scans[i as int]);
            }
            if self.scan_operators[i].0 == handle {
                return Some(self.scan_operators[i].1);
            }
        }
        None
    }

    /// Puts a row into a scan, which queues it for the operators that the scan feeds.
    fn ingest_into_scan(&mut self, at: usize, row: Row, diff: Diff, timestamp: Timestamp) -> (
    result: Result<(), usize>)
        requires
            at < old(self)@.ops.len(),
        ensures
            if old(self)@.ops[at as int] is Scan {
                &&& result is Ok
                &&& final(self)@.ops.len() == old(self)@.ops.len()
                &&& forall|i: int|
                    0 <= i < old(self)@.ops.len() && i != at ==> #[trigger] final(self)@.ops[i]
                        == old(self)@.ops[i]
                &&& StreamOperator::emptied(
                    old(self)@.ops[at as int],
                    final(self)@.ops[at as int],
                )
                &&& final(self)@.queue == old(self)@.queue + operators::forwarded(
                    old(self)@.ops[at as int].targets(),
                    values::row_view(row@),
                    diff,
                    timestamp,
                )
                &&& final(self)@ == (LoopState {
                    ops: final(self)@.ops,
                    queue: final(self)@.queue,
                    ..old(self)@
                })
            } else {
                result == Err::<(), usize>(at) && final(self)@ == old(self)@
            },
    {
        proof {
            use_type_invariant(&*self);
        }
        let ghost before = self@;
        let mut queue: EventQueue = VecDeque::new();
        let mut ops: Vec<StreamOperator> = Vec::new();
        let mut scans: Vec<(RowStreamHandle, usize)> = Vec::new();
        assert(operators::event_views(queue@) =~= Seq::<EventView>::empty());
        std::mem::swap(&mut queue, &mut self.queue);
        std::mem::swap(&mut scans, &mut self.scan_operators);
        std::mem::swap(&mut ops, &mut self.ops);
        let ghost view = values::row_view(row@);
        let is_scan: bool = match &mut ops[at] {
            StreamOperator::Scan(scan) => {
                let ghost sink = scan.sink;
                let result = scan.ingest(row, diff, timestamp);
                assert(operators::event_views(sink.queue@) =~= Seq::<EventView>::empty());
                assert(operators::event_views(scan.sink.queue@) =~= operators::forwarded(
                    sink.targets@,
                    view,
                    diff,
                    timestamp,
                ));
                true
            },
            _ => false,
        };
        if is_scan {
            let ghost made = ops@[at as int].pending();
            ops[at].drain_into(&mut queue);
            proof {
                let after_queue = operators::event_views(queue@);
                assert forall|i: int| 0 <= i < after_queue.len() implies 0 <= (
                #[trigger] after_queue[i]).target_op_index && after_queue[i].target_op_index
                    < ops@.len() by {
                    if i < before.queue.len() {
                        assert(after_queue[i] == before.queue[i]);
                    } else {
                        let k = i - before.queue.len();
                        assert(after_queue[i] == made[k]);
                        assert(stream_operator::targets_within(
                            before.ops[at as int].targets(),
                            at + 1,
                            ops@.len() as int,
                        ));
                        assert(before.ops[at as int].targets()[k].0 == made[k].target_op_index);
                    }
                }
                assert forall|i: int| 0 <= i < ops@.len() implies stream_operator::targets_within(
                    (#[trigger] ops@[i]).targets(),
                    i + 1,
                    ops@.len() as int,
                ) && ops@[i].pending().len() == 0 by {
                    assert(stream_operator::targets_within(
                        before.ops[i].targets(),
                        i + 1,
                        ops@.len() as int,
                    ));
                    if i != at {
                        assert(ops@[i] == before.ops[i]);
                    }
                }
            }
        } else {
            assert(ops@ =~= before.ops);
        }
        self.ops = ops;
        self.scan_operators = scans;
        self.queue = queue;
        if is_scan {
            Ok(())
        } else {
            Err(at)
        }
    }

    /// Notes how far a source got, where checkpoints are made.
    fn record_source_offset(&mut self, source: &str, offset: Timestamp)
        ensures
            final(self)@ == (LoopState {
                offsets: match old(self)@.offsets {
                    Some(offsets) => Some(offsets.insert(source@, offset)),
                    None => None,
                },
                ..old(self)@
            }),
    {
        proof {
            use_type_invariant(&*self);
        }
        let mut offsets: Option<NameMap<Timestamp>> = None;
        std::mem::swap(&mut offsets, &mut self.offsets);
        match offsets {
            Some(mut kept) => {
                let _ = kept.insert(String::from_str(source), offset);
                self.offsets = Some(kept);
            },
            None => {},
        }
    }

    /// Hands a change of a row of a source to its writer, where the changes are stored.
    fn write_outer_stream(&mut self, source: &str, encoded: Option<Vec<u8>>, diff: Diff) -> (result:
        Result<(), NotEncoded>)
        requires
            diff == old(self)@.default_diff,
        ensures
            match with_outer(old(self)@, source@, outer_stream::encoding_view(encoded)) {
                Ok(after) => result is Ok && final(self)@ == after,
                Err(_) => result is Err && final(self)@ == old(self)@,
            },
    {
        proof {
            use_type_invariant(&*self);
        }
        let mut streams: Option<OuterStreamRegistry> = None;
        std::mem::swap(&mut streams, &mut self.outer_streams);
        match streams {
            Some(mut registry) => {
                let result = registry.append(source, encoded, diff);
                self.outer_streams = Some(registry);
                result
            },
            None => Ok(()),
        }
    }

    /// Hands the row of a decoded event of a source to the writer of the source and puts it into
    /// its scan; answers its timestamp, which is still to be taken as the watermark of the source.
    /// The encoding of the row is given if it has one.
    pub fn ingest_event<E>(
        &mut self,
        source: String,
        decoded: Result<(Row, Option<Timestamp>), E>,
        encoded: Option<Vec<u8>>,
        fallback_timestamp: Timestamp,
    ) -> (result: Result<Timestamp, TickError<E>>)
        ensures
            event_ingested(
                old(self)@,
                source@,
                decoded,
                outer_stream::encoding_view(encoded),
                fallback_timestamp,
                final(self)@,
                result,
            ),
    {
        proof {
            use_type_invariant(&*self);
        }
        let ghost before = self@;
        let ghost name = source@;
        let ingested = match self.runtime.scan_runtime.ingest_event(
            source,
            decoded,
            fallback_timestamp,
        ) {
            Ok(ingested) => ingested,
            Err(error) => {
                return Err(TickError::Ingest(error));
            },
        };
        let ghost row = values::row_view(ingested.row@);
        match self.write_outer_stream(ingested.source.as_str(), encoded, ingested.diff) {
            Ok(()) => {},
            Err(_) => {
                return Err(TickError::NotEncoded);
            },
        }
        let ghost noted = self@;
        let at: usize = match self.find_scan(ingested.handle) {
            Some(at) => at,
            None => {
                return Err(TickError::NoScanOperator(ingested.handle));
            },
        };
        let timestamp: Timestamp = ingested.timestamp;
        match self.ingest_into_scan(at, ingested.row, ingested.diff, timestamp) {
            Ok(()) => {},
            Err(index) => {
                return Err(TickError::NotAScan(index));
            },
        }
        self.record_source_offset(ingested.source.as_str(), timestamp);
        assert(row_taken(noted, name, row, timestamp, at, self@));
        Ok(timestamp)
    }

    /// Takes a decoded event of a source; answers the step to be sealed, if its timestamp makes
    /// one. What is then still queued is handled by `drain_queue`. Where a queued event waits for
    /// the result of an operation on floats, `finish_step` goes on with it.
    pub fn process_event<E>(
        &mut self,
        registry: &mut MaterializedViewRegistry,
        source: String,
        decoded: Result<(Row, Option<Timestamp>), E>,
        encoded: Option<Vec<u8>>,
        fallback_timestamp: Timestamp,
        outside: &OutsideResults,
    ) -> (result: Result<Option<u64>, TickError<E>>)
        requires
            views_present(old(self)@.ops, *old(registry)),
        ensures
            event_taken(
                old(self)@,
                *old(registry),
                source@,
                decoded,
                outer_stream::encoding_view(encoded),
                fallback_timestamp,
                outside@,
                final(self)@,
                *final(registry),
                result,
            ),
    {
        let ghost before = self@;
        let name: String = source.clone();
        let timestamp: Timestamp = match self.ingest_event(
            source,
            decoded,
            encoded,
            fallback_timestamp,
        ) {
            Ok(timestamp) => timestamp,
            Err(error) => {
                return Err(error);
            },
        };
        let ghost middle = self@;
        proof {
            assert forall|i: int| 0 <= i < middle.ops.len() implies ((
            #[trigger] middle.ops[i]) matches StreamOperator::Materialize(op) ==> op.view
                < registry.views().len()) by {
                assert(before.ops[i] matches StreamOperator::Materialize(op) ==> op.view
                    < registry.views().len());
                let at = scan_of(before.scans, before.bindings[name@])->0;
                if i != at {
                    assert(middle.ops[i] == before.ops[i]);
                }
            }
        }
        self.advance_source_watermark(registry, name.as_str(), timestamp, outside)
    }

    /// Hands out the writers of the changes of the sources, for these to be stored.
    pub fn take_outer_streams(&mut self) -> (streams: Option<OuterStreamRegistry>)
        ensures
            stream_states(streams) == old(self)@.outer,
            final(self)@ == (LoopState { outer: None, ..old(self)@ }),
    {
        proof {
            use_type_invariant(&*self);
        }
        let mut streams: Option<OuterStreamRegistry> = None;
        std::mem::swap(&mut streams, &mut self.outer_streams);
        streams
    }

    /// Takes the writers of the changes of the sources back.
    pub fn set_outer_streams(&mut self, streams: Option<OuterStreamRegistry>)
        ensures
            final(self)@ == (LoopState { outer: stream_states(streams), ..old(self)@ }),
    {
        proof {
            use_type_invariant(&*self);
        }
        self.outer_streams = streams;
    }
}

/// One operator changed, and nothing else did.
pub open spec fn changed_at(before: LoopState, at: int, after: LoopState) -> bool {
    &&& 0 <= at < before.ops.len()
    &&& after == (LoopState { ops: before.ops.update(at, after.ops[at]), ..before })
}

impl TickLoop {
    /// Publishes a snapshot of the rows that a view is made of; answers the changes since the
    /// last one, or nothing where one does not fit into sixty-four bits. Fails where the operator
    /// keeps no view.
    pub fn replicate_view(&mut self, at: usize, ts: i64, snapshot: ZSet) -> (deltas: Result<
        Option<Vec<(Vec<u8>, i64)>>,
        usize,
    >)
        ensures
            match deltas {
                Ok(changes) => {
                    &&& changed_at(old(self)@, at as int, final(self)@)
                    &&& match (old(self)@.ops[at as int], final(self)@.ops[at as int]) {
                        (StreamOperator::Materialize(b), StreamOperator::Materialize(a)) =>
                            b.replicated(ts, snapshot.view(), a, changes),
                        _ => false,
                    }
                },
                Err(index) => {
                    &&& index == at
                    &&& at >= old(self)@.ops.len() || !(old(self)@.ops[at as int] is Materialize)
                    &&& final(self)@ == old(self)@
                },
            },
    {
        proof {
            use_type_invariant(&*self);
        }
        if at >= self.ops.len() {
            return Err(at);
        }
        let ghost before = self@;
        let mut queue: EventQueue = VecDeque::new();
        let mut ops: Vec<StreamOperator> = Vec::new();
        let mut scans: Vec<(RowStreamHandle, usize)> = Vec::new();
        assert(operators::event_views(queue@) =~= Seq::<EventView>::empty());
        std::mem::swap(&mut queue, &mut self.queue);
        std::mem::swap(&mut scans, &mut self.scan_operators);
        std::mem::swap(&mut ops, &mut self.ops);
        let deltas: Result<Option<Vec<(Vec<u8>, i64)>>, usize> = match &mut ops[at] {
            StreamOperator::Materialize(op) => Ok(op.replicate(ts, snapshot)),
            _ => Err(at),
        };
        proof {
            assert(ops@ =~= before.ops.update(at as int, ops@[at as int]));
            lemma_still_flows_forward(before.ops, at as int, ops@);
        }
        self.ops = ops;
        self.scan_operators = scans;
        self.queue = queue;
        assert(deltas is Err ==> self@.ops =~= before.ops);
        deltas
    }

    /// Hands out the changes of a join that are still to be stored. Fails where the operator is
    /// no join.
    pub fn take_join_changes(&mut self, at: usize) -> (changes: Result<JoinChanges, usize>)
        ensures
            match changes {
                Ok(taken) => {
                    &&& changed_at(old(self)@, at as int, final(self)@)
                    &&& match (old(self)@.ops[at as int], final(self)@.ops[at as int]) {
                        (StreamOperator::Join(b), StreamOperator::Join(a)) => b.changes_taken(
                            a,
                            taken,
                        ),
                        _ => false,
                    }
                },
                Err(index) => {
                    &&& index == at
                    &&& at >= old(self)@.ops.len() || !(old(self)@.ops[at as int] is Join)
                    &&& final(self)@ == old(self)@
                },
            },
    {
        proof {
            use_type_invariant(&*self);
        }
        if at >= self.ops.len() {
            return Err(at);
        }
        let ghost before = self@;
        let mut queue: EventQueue = VecDeque::new();
        let mut ops: Vec<StreamOperator> = Vec::new();
        let mut scans: Vec<(RowStreamHandle, usize)> = Vec::new();
        assert(operators::event_views(queue@) =~= Seq::<EventView>::empty());
        std::mem::swap(&mut queue, &mut self.queue);
        std::mem::swap(&mut scans, &mut self.scan_operators);
        std::mem::swap(&mut ops, &mut self.ops);
        let changes: Result<JoinChanges, usize> = match &mut ops[at] {
            StreamOperator::Join(op) => Ok(op.take_changes()),
            _ => Err(at),
        };
        proof {
            assert(ops@ =~= before.ops.update(at as int, ops@[at as int]));
            lemma_still_flows_forward(before.ops, at as int, ops@);
        }
        self.ops = ops;
        self.scan_operators = scans;
        self.queue = queue;
        assert(changes is Err ==> self@.ops =~= before.ops);
        changes
    }
}

/// Operators feed operators behind them after one of them changed otherwise.
proof fn lemma_still_flows_forward(
    before: Seq<StreamOperator>,
    at: int,
    after: Seq<StreamOperator>,
)
    requires
        graph_builder::flows_forward(before),
        0 <= at < before.len(),
        after == before.update(at, after[at]),
        after[at].targets() == before[at].targets(),
        after[at].pending() == before[at].pending(),
    ensures
        graph_builder::flows_forward(after),
{
    assert forall|i: int| 0 <= i < after.len() implies stream_operator::targets_within(
        (#[trigger] after[i]).targets(),
        i + 1,
        after.len() as int,
    ) && after[i].pending().len() == 0 by {
        assert(stream_operator::targets_within(before[i].targets(), i + 1, before.len() as int));
    }
}

/// An optional map as the map.
pub open spec fn opt_map<T>(map: Option<NameMap<T>>) -> Option<Map<Seq<char>, T>> {
    match map {
        Some(kept) => Some(kept@),
        None => None,
    }
}

/// The rows of a stream go to the operator that was told last for it.
#[verifier::rlimit(40)]
pub proof fn law_stream_goes_to_the_operator_told_last(
    scans: Seq<(RowStreamHandle, usize)>,
    handle: RowStreamHandle,
)
    ensures
        match scan_of(scans, handle) {
            Some(at) => exists|i: int|
                {
                    &&& 0 <= i < scans.len()
                    &&& (#[trigger] scans[i]) == (handle, at)
                    &&& forall|j: int| i < j < scans.len() ==> (#[trigger] scans[j]).0 != handle
                },
            None => forall|i: int| 0 <= i < scans.len() ==> (#[trigger] scans[i]).0 != handle,
        },
    decreases scans.len(),
{
    if scans.len() > 0 {
        let last = scans.len() - 1;
        if scans[last].0 == handle {
            assert(scans[last] == (handle, scans[last].1));
        } else {
            let front = scans.drop_last();
            law_stream_goes_to_the_operator_told_last(front, handle);
            match scan_of(front, handle) {
                Some(at) => {
                    let i = choose|i: int|
                        {
                            &&& 0 <= i < front.len()
                            &&& (#[trigger] front[i]) == (handle, at)
                            &&& forall|j: int|
                                i < j < front.len() ==> (#[trigger] front[j]).0 != handle
                        };
                    assert(scans[i] == (handle, at));
                    assert forall|j: int| i < j < scans.len() implies (#[trigger] scans[j]).0
                        != handle by {
                        if j < last {
                            assert(front[j].0 != handle);
                        }
                    }
                },
                None => {
                    assert forall|i: int| 0 <= i < scans.len() implies (#[trigger] scans[i]).0
                        != handle by {
                        if i < last {
                            assert(front[i].0 != handle);
                        }
                    }
                },
            }
        }
    }
}

/// The frontier is the watermark of the slowest source: no source is behind it, and one is at it.
pub proof fn law_frontier_is_the_slowest_source(
    watermarks: Map<Seq<char>, Timestamp>,
    default: Timestamp,
    frontier: Timestamp,
)
    requires
        is_frontier(watermarks, default, frontier),
    ensures
        forall|source: Seq<char>| #[trigger]
            watermarks.dom().contains(source) ==> frontier <= watermarks[source],
        (exists|source: Seq<char>| #[trigger] watermarks.dom().contains(source)) ==> exists|
            source: Seq<char>,
        | #[trigger] watermarks.dom().contains(source) && watermarks[source] == frontier,
        (forall|source: Seq<char>| !#[trigger] watermarks.dom().contains(source)) ==> frontier
            == default,
{
}

/// A step is made just where the watermark moves forward; then the clock stands at it, and the
/// number of the step is the next one.
pub proof fn law_steps_are_counted(
    before: LoopState,
    watermark: Timestamp,
    after: LoopState,
    step: Option<u64>,
)
    requires
        step_begun(before, watermark, after, step),
        before.clock.step < u64::MAX,
    ensures
        step is Some <==> watermark > before.clock.watermark,
        step matches Some(number) ==> number == before.clock.step + 1 && after.clock.watermark
            == watermark && after.clock.step == number,
        step is None ==> after == before,
        after.ops == before.ops,
        after.queue == before.queue,
        after.watermarks == before.watermarks,
        after.offsets == before.offsets,
{
}

/// A row of a source is queued once for each input that the scan of the source feeds, as often as
/// rows of sources count, at the time of the event; and the source is noted to have got there.
pub proof fn law_ingested_row_is_queued<E>(
    before: LoopState,
    source: Seq<char>,
    event: (Row, Option<Timestamp>),
    encoded: Option<Seq<u8>>,
    fallback: Timestamp,
    after: LoopState,
    result: Result<Timestamp, TickError<E>>,
)
    requires
        event_ingested(before, source, Ok::<_, E>(event), encoded, fallback, after, result),
        result is Ok,
    ensures
        ({
            let time = match event.1 {
                Some(own) => own,
                None => fallback,
            };
            let at = scan_of(before.scans, before.bindings[source])->0;
            let targets = before.ops[at as int].targets();
            &&& before.bindings.dom().contains(source)
            &&& result == Ok::<Timestamp, TickError<E>>(time)
            &&& before.ops[at as int] is Scan
            &&& after.queue.len() == before.queue.len() + targets.len()
            &&& after.queue.take(before.queue.len() as int) == before.queue
            &&& forall|i: int|
                0 <= i < targets.len() ==> {
                    let queued = #[trigger] after.queue[before.queue.len() + i];
                    &&& queued.target_op_index == targets[i].0
                    &&& queued.input_port == targets[i].1
                    &&& queued.row == values::row_view(event.0@)
                    &&& queued.diff == before.default_diff
                    &&& queued.ts == time
                }
            &&& before.offsets matches Some(offsets) ==> after.offsets == Some(
                offsets.insert(source, time),
            )
            &&& after.clock == before.clock
            &&& after.watermarks == before.watermarks
        }),
{
    assert(after.queue.take(before.queue.len() as int) =~= before.queue);
}

/// Handling the first event of a queue takes it off the front, changes no operator but its own, and
/// puts what comes of it behind the others.
pub proof fn law_events_are_handled_in_order(
    before_ops: Seq<StreamOperator>,
    before_queue: Seq<EventView>,
    floats: FloatMath,
    encodable: Encodable,
    after_ops: Seq<StreamOperator>,
    after_queue: Seq<EventView>,
    result: Result<(), OperatorError>,
)
    requires
        dispatched(
            before_ops,
            before_queue,
            floats,
            encodable,
            after_ops,
            after_queue,
            result,
        ),
    ensures
        before_queue.len() > 0,
        after_queue.len() >= before_queue.len() - 1,
        after_queue.take(before_queue.len() - 1) == before_queue.skip(1),
        after_ops.len() == before_ops.len(),
        forall|i: int|
            0 <= i < before_ops.len() && i != before_queue[0].target_op_index
                ==> #[trigger] after_ops[i] == before_ops[i],
{
    assert(after_queue.take(before_queue.len() - 1) =~= before_queue.skip(1));
}

/// A finished step has handled everything that was queued, and each view that an operator keeps has
/// the watermark of the clock.
pub proof fn law_finished_step_leaves_nothing_queued(
    before: LoopState,
    before_views: MaterializedViewRegistry,
    outside: OutsideView,
    after: LoopState,
    after_views: MaterializedViewRegistry,
    i: int,
)
    requires
        step_finished(before, before_views, outside, after, after_views, Ok(None)),
        views_present(before.ops, before_views),
        0 <= i < before.ops.len(),
    ensures
        after.queue.len() == 0,
        after.clock == before.clock,
        before.ops[i] matches StreamOperator::Materialize(op) ==> after_views.views()[op.view as int].view_watermark()
            == Some(before.clock.watermark),
{
    let middle = choose|middle: Seq<StreamOperator>|
        {
            &&& #[trigger] drained(
                before.ops,
                before.queue,
                outside,
                middle,
                after.queue,
                Ok(None),
            )
            &&& watermarked(
                middle,
                before_views,
                before.clock.watermark,
                after.ops,
                after_views,
                middle.len(),
            )
        };
    lemma_drained_same_views(before.ops, before.queue, outside, middle, after.queue, Ok(None));
    if let StreamOperator::Materialize(op) = before.ops[i] {
        assert(op.view < before_views.views().len());
        let m = middle[i];
        assert(m matches StreamOperator::Materialize(own) && own.view == op.view);
        assert(kept_by(middle, op.view as int, middle.len()));
        assert(view_watermarked(
            before_views.views()[op.view as int],
            true,
            before.clock.watermark,
            after_views.views()[op.view as int],
        ));
    }
}

/// A watermark that is taken ends the step for the views: each view that an operator keeps has that
/// watermark then, and no view has other rows. A watermark that is not above the last one changes
/// nothing.
#[verifier::rlimit(40)]
pub proof fn law_watermark_reaches_the_views<E>(
    before: LoopState,
    before_views: MaterializedViewRegistry,
    watermark: Timestamp,
    outside: OutsideView,
    after: LoopState,
    after_views: MaterializedViewRegistry,
    result: Result<Option<u64>, TickError<E>>,
)
    requires
        watermark_taken(
            before,
            before_views,
            watermark,
            outside,
            after,
            after_views,
            result,
        ),
    ensures
        watermark <= before.clock.watermark ==> after == before && after_views == before_views
            && result == Ok::<Option<u64>, TickError<E>>(None),
        watermark > before.clock.watermark ==> after.clock.watermark == watermark,
        result matches Ok(Some(step)) ==> {
            &&& watermark > before.clock.watermark
            &&& step == after.clock.step
            &&& before.clock.step < u64::MAX ==> step == before.clock.step + 1
            &&& after.queue.len() == 0
            &&& after_views.views().len() == before_views.views().len()
            &&& forall|i: int|
                0 <= i < after.ops.len() ==> ((
                #[trigger] after.ops[i]) matches StreamOperator::Materialize(op) ==> op.view
                    < after_views.views().len() ==> after_views.views()[op.view as int]
                    .view_watermark() == Some(watermark))
            &&& forall|v: int|
                0 <= v < after_views.views().len() ==> (
                #[trigger] after_views.views()[v]).rows() == before_views.views()[v].rows()
        },
        result is Err ==> after_views == before_views,
        after.watermarks == before.watermarks,
        after.offsets == before.offsets,
{
    if watermark > before.clock.watermark && result is Ok {
        let middle = choose|middle: Seq<StreamOperator>|
            {
                &&& #[trigger] drained(
                    before.ops,
                    before.queue,
                    outside,
                    middle,
                    after.queue,
                    Ok(None),
                )
                &&& watermarked(
                    middle,
                    before_views,
                    watermark,
                    after.ops,
                    after_views,
                    middle.len(),
                )
            };
        assert forall|i: int| 0 <= i < after.ops.len() implies ((
        #[trigger] after.ops[i]) matches StreamOperator::Materialize(op) ==> op.view
            < after_views.views().len() ==> after_views.views()[op.view as int].view_watermark()
            == Some(watermark)) by {
            assert(same_operator(middle[i], after.ops[i]));
            if let StreamOperator::Materialize(op) = after.ops[i] {
                if op.view < after_views.views().len() {
                    assert(middle[i] is Materialize);
                    assert(kept_by(middle, op.view as int, middle.len()));
                    assert(view_watermarked(
                        before_views.views()[op.view as int],
                        kept_by(middle, op.view as int, middle.len()),
                        watermark,
                        after_views.views()[op.view as int],
                    ));
                }
            }
        }
    }
}

/// A source that moves on has the watermark that it told, and no other source has another one. The
/// views move with the slowest source, not with the one that moved.
pub proof fn law_sources_move_by_themselves<E>(
    before: LoopState,
    before_views: MaterializedViewRegistry,
    source: Seq<char>,
    watermark: Timestamp,
    outside: OutsideView,
    after: LoopState,
    after_views: MaterializedViewRegistry,
    result: Result<Option<u64>, TickError<E>>,
)
    requires
        source_watermark_taken(
            before,
            before_views,
            source,
            watermark,
            outside,
            after,
            after_views,
            result,
        ),
    ensures
        !before.watermarks.dom().contains(source) ==> result is Err && after == before,
        before.watermarks.dom().contains(source) ==> {
            &&& after.watermarks.dom().contains(source)
            &&& after.watermarks[source] >= before.watermarks[source]
            &&& after.watermarks[source] >= watermark
            &&& after.watermarks[source] == watermark || after.watermarks[source]
                == before.watermarks[source]
            &&& forall|other: Seq<char>|
                other != source && #[trigger] before.watermarks.dom().contains(other)
                    ==> after.watermarks.dom().contains(other) && after.watermarks[other]
                    == before.watermarks[other]
        },
        result matches Ok(Some(_)) ==> forall|other: Seq<char>| #[trigger]
            after.watermarks.dom().contains(other) ==> after.clock.watermark
                <= after.watermarks[other],
{
    if before.watermarks.dom().contains(source) && watermark > before.watermarks[source] {
        let moved = LoopState {
            watermarks: before.watermarks.insert(source, watermark),
            ..before
        };
        let frontier = choose|frontier: Timestamp|
            {
                &&& is_frontier(moved.watermarks, moved.clock.watermark, frontier)
                &&& #[trigger] watermark_taken(
                    moved,
                    before_views,
                    frontier,
                    outside,
                    after,
                    after_views,
                    result,
                )
            };
        law_frontier_is_the_slowest_source(moved.watermarks, moved.clock.watermark, frontier);
        law_watermark_reaches_the_views(
            moved,
            before_views,
            frontier,
            outside,
            after,
            after_views,
            result,
        );
    }
}

/// The step of a source begins as its watermark is taken: where the watermarks of all sources are
/// above the last one, and then with the least of them.
pub proof fn law_step_begins_with_the_slowest_source<E>(
    before: LoopState,
    source: Seq<char>,
    watermark: Timestamp,
    after: LoopState,
    result: Result<Option<u64>, TickError<E>>,
)
    requires
        source_step_begun(before, source, watermark, after, result),
    ensures
        result is Err <==> !before.watermarks.dom().contains(source),
        result matches Ok(Some(step)) ==> {
            &&& after.clock.watermark > before.clock.watermark
            &&& after.watermarks[source] == watermark
            &&& forall|other: Seq<char>| #[trigger]
                after.watermarks.dom().contains(other) ==> after.clock.watermark
                    <= after.watermarks[other]
            &&& exists|other: Seq<char>| #[trigger]
                after.watermarks.dom().contains(other) && after.clock.watermark
                    == after.watermarks[other]
        },
        result matches Ok(None) ==> after.clock == before.clock && (watermark
            <= before.watermarks[source] || exists|other: Seq<char>| #[trigger]
            after.watermarks.dom().contains(other) && after.watermarks[other]
                <= before.clock.watermark),
        after.ops == before.ops,
        after.queue == before.queue,
{
    if before.watermarks.dom().contains(source) && watermark > before.watermarks[source] {
        let moved = LoopState {
            watermarks: before.watermarks.insert(source, watermark),
            ..before
        };
        let frontier = choose|frontier: Timestamp|
            {
                &&& is_frontier(moved.watermarks, moved.clock.watermark, frontier)
                &&& #[trigger] step_begun(moved, frontier, after, result->Ok_0)
            };
        law_frontier_is_the_slowest_source(moved.watermarks, moved.clock.watermark, frontier);
        assert(moved.watermarks.dom().contains(source));
        assert(after.watermarks == moved.watermarks);
        let slowest = choose|other: Seq<char>| #[trigger]
            moved.watermarks.dom().contains(other) && moved.watermarks[other] == frontier;
        assert(after.watermarks.dom().contains(slowest));
    }
}

/// Handing one event on takes the first one from the queue and no other, and leaves all but the
/// operators and the queue as they are; where a float is awaited, or nothing is queued, nothing is
/// taken.
pub proof fn law_one_event_at_a_time(
    before: LoopState,
    floats: FloatMath,
    encodable: Encodable,
    after: LoopState,
    result: Result<Option<FloatCall>, OperatorError>,
)
    requires
        next_dispatched(before, floats, encodable, after, result),
    ensures
        before.queue.len() == 0 ==> after == before && result == Ok::<
            Option<FloatCall>,
            OperatorError,
        >(None),
        result matches Ok(Some(_)) ==> after == before && before.queue.len() > 0,
        after.clock == before.clock,
        after.watermarks == before.watermarks,
        after.offsets == before.offsets,
        after.scans == before.scans,
        after.bindings == before.bindings,
        after.outer == before.outer,
        before.queue.len() > 0 && result is Ok && result->Ok_0 is None ==> exists|
            outcome: Result<(), OperatorError>,
        |
            outcome is Ok && #[trigger] dispatched(
                before.ops,
                before.queue,
                floats,
                encodable,
                after.ops,
                after.queue,
                outcome,
            ),
{
}

} // verus!
