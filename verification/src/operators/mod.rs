//! Operators of a dataflow and the sinks that they feed.

use std::collections::VecDeque;

use vstd::prelude::*;

use crate::expr_eval::ExprError;
use crate::float_results::{FloatMath, FloatResults};
use crate::stream_types::{Diff, InputPort, Timestamp};
use crate::values;
use crate::values::{clone_row, Row, ScalarView};

pub mod filter;
pub mod join;
pub mod map;
pub mod materialize;
pub mod mv_sink;
pub mod scan;

verus! {

/// A row on its way to an operator.
#[derive(Debug, PartialEq, Eq)]
pub struct DispatchEvent {
    pub target_op_index: usize,
    pub input_port: InputPort,
    pub row: Row,
    pub diff: Diff,
    pub ts: Timestamp,
}

/// What an event stands for.
pub struct EventView {
    pub target_op_index: usize,
    pub input_port: InputPort,
    pub row: Seq<ScalarView>,
    pub diff: Diff,
    pub ts: Timestamp,
}

impl View for DispatchEvent {
    type V = EventView;

    open spec fn view(&self) -> EventView {
        EventView {
            target_op_index: self.target_op_index,
            input_port: self.input_port,
            row: values::row_view(self.row@),
            diff: self.diff,
            ts: self.ts,
        }
    }
}

/// Events in the order in which they are to be handled.
pub type EventQueue = VecDeque<DispatchEvent>;

/// Events as what they stand for.
pub open spec fn event_views(events: Seq<DispatchEvent>) -> Seq<EventView> {
    Seq::new(events.len(), |i: int| events[i]@)
}

/// Why a sink did not take a row or a watermark.
#[derive(Clone, Copy, Debug, PartialEq, Eq, Structural)]
pub struct SinkError;

/// Why an operator failed.
#[derive(Clone, Copy, Debug, PartialEq, Eq, Structural)]
pub enum OperatorError {
    /// The operator has no such input.
    UnexpectedPort(InputPort),
    /// Scans have no inputs.
    ScanTakesNoInput,
    /// An expression has no value.
    Expression(ExprError),
    /// A row is too short for this join column.
    KeyOutOfBounds(usize),
    /// A multiplicity does not fit into sixty-four bits.
    MultiplicityOverflow,
    /// A row that is to be stored cannot be encoded.
    NotEncoded,
    /// The sink failed.
    Sink(SinkError),
}

/// Which of the rows that a join stores for a change can be encoded.
#[derive(Clone, Copy, Debug, PartialEq, Eq, Structural)]
pub struct Encodable {
    /// Whether the changed row can be.
    pub row: bool,
    /// The position of the first change of the output that cannot be.
    pub output: Option<usize>,
}

impl Encodable {
    /// All can be.
    pub open spec fn spec_all() -> Encodable {
        Encodable { row: true, output: None }
    }

    /// All can be.
    pub fn all() -> (encodable: Self)
        ensures
            encodable == Encodable::spec_all(),
    {
        Encodable { row: true, output: None }
    }
}

/// What `OutsideResults` holds.
pub struct OutsideView {
    pub floats: FloatMath,
    pub encodable: Seq<Encodable>,
}

impl OutsideView {
    /// What can be encoded of the rows that are stored for the row at a position.
    pub open spec fn encodable_at(self, n: nat) -> Encodable {
        if n < self.encodable.len() {
            self.encodable[n as int]
        } else {
            Encodable::spec_all()
        }
    }
}

/// What handling queued rows takes from outside: the results of operations on floats, and which
/// rows can be encoded, for each handled row in turn. For a row without such an entry, all can be.
pub struct OutsideResults {
    pub floats: FloatResults,
    pub encodable: Vec<Encodable>,
}

impl View for OutsideResults {
    type V = OutsideView;

    open spec fn view(&self) -> OutsideView {
        OutsideView { floats: self.floats@, encodable: self.encodable@ }
    }
}

impl OutsideResults {
    /// No results, and all rows can be encoded.
    pub fn new() -> (outside: Self)
        ensures
            outside@.floats == FloatMath::none(),
            outside@.encodable == Seq::<Encodable>::empty(),
    {
        OutsideResults { floats: FloatResults::new(), encodable: Vec::new() }
    }
}

/// Output of an operator, which takes rows and watermarks.
pub trait RowSink: Sized {
    /// How taking a row may change the sink and what it may answer.
    spec fn push_step(
        before: Self,
        row: Seq<ScalarView>,
        diff: Diff,
        timestamp: Timestamp,
        after: Self,
        outcome: Result<(), SinkError>,
    ) -> bool;

    /// How taking a watermark may change the sink and what it may answer.
    spec fn watermark_step(
        before: Self,
        watermark: Timestamp,
        after: Self,
        outcome: Result<(), SinkError>,
    ) -> bool;

    /// Takes a row.
    fn push(&mut self, row: Row, diff: Diff, timestamp: Timestamp) -> (outcome: Result<
        (),
        SinkError,
    >)
        ensures
            Self::push_step(
                *old(self),
                values::row_view(row@),
                diff,
                timestamp,
                *final(self),
                outcome,
            ),
    ;

    /// Takes a watermark.
    fn watermark(&mut self, watermark: Timestamp) -> (outcome: Result<(), SinkError>)
        ensures
            Self::watermark_step(*old(self), watermark, *final(self), outcome),
    ;
}

/// Sink that forwards rows to operators by enqueuing events.
#[derive(Debug)]
pub struct DispatchSink {
    pub targets: Vec<(usize, InputPort)>,
    pub queue: EventQueue,
}

/// The events that forward a row to the targets, in their order.
pub open spec fn forwarded(
    targets: Seq<(usize, InputPort)>,
    row: Seq<ScalarView>,
    diff: Diff,
    ts: Timestamp,
) -> Seq<EventView> {
    Seq::new(
        targets.len(),
        |i: int|
            EventView {
                target_op_index: targets[i].0,
                input_port: targets[i].1,
                row,
                diff,
                ts,
            },
    )
}

impl DispatchSink {
    /// A sink that forwards to `targets` by appending to `queue`.
    pub fn new(targets: Vec<(usize, InputPort)>, queue: EventQueue) -> (sink: Self)
        ensures
            sink.targets == targets,
            sink.queue == queue,
    {
        DispatchSink { targets, queue }
    }

    /// Moves the events to the end of `queue`, in their order.
    pub fn drain_into(&mut self, queue: &mut EventQueue)
        ensures
            final(queue)@ == old(queue)@ + old(self).queue@,
            final(self).queue@.len() == 0,
            final(self).targets == old(self).targets,
    {
        queue.append(&mut self.queue);
    }
}

impl RowSink for DispatchSink {
    open spec fn push_step(
        before: Self,
        row: Seq<ScalarView>,
        diff: Diff,
        timestamp: Timestamp,
        after: Self,
        outcome: Result<(), SinkError>,
    ) -> bool {
        &&& outcome is Ok
        &&& after.targets == before.targets
        &&& event_views(after.queue@) == event_views(before.queue@) + forwarded(
            before.targets@,
            row,
            diff,
            timestamp,
        )
    }

    open spec fn watermark_step(
        before: Self,
        watermark: Timestamp,
        after: Self,
        outcome: Result<(), SinkError>,
    ) -> bool {
        outcome is Ok && after == before
    }

    fn push(&mut self, row: Row, diff: Diff, timestamp: Timestamp) -> (outcome: Result<
        (),
        SinkError,
    >) {
        let ghost before = event_views(self.queue@);
        let ghost view = values::row_view(row@);
        let ghost sent = forwarded(self.targets@, view, diff, timestamp);
        let mut i: usize = 0;
        assert(event_views(self.queue@) =~= before + sent.take(0));
        while i < self.targets.len()
            invariant
                i <= self.targets@.len(),
                self.targets == old(self).targets,
                view == values::row_view(row@),
                sent == forwarded(self.targets@, view, diff, timestamp),
                event_views(self.queue@) == before + sent.take(i as int),
            decreases self.targets@.len() - i,
        {
            let target: (usize, InputPort) = self.targets[i];
            let event = DispatchEvent {
                target_op_index: target.0,
                input_port: target.1,
                row: clone_row(&row),
                diff,
                ts: timestamp,
            };
            let ghost queued = self.queue@;
            self.queue.push_back(event);
            proof {
                assert(event@ == sent[i as int]);
                assert(event_views(self.queue@) =~= event_views(queued).push(event@));
                assert(sent.take(i + 1) =~= sent.take(i as int).push(sent[i as int]));
            }
            i = i + 1;
        }
        assert(sent.take(i as int) =~= sent);
        Ok(())
    }

    fn watermark(&mut self, watermark: Timestamp) -> (outcome: Result<(), SinkError>) {
        Ok(())
    }
}

/// Sink that drops everything.
#[derive(Debug)]
pub struct NullSink;

impl Default for NullSink {
    fn default() -> (sink: Self) {
        NullSink
    }
}

impl RowSink for NullSink {
    open spec fn push_step(
        before: Self,
        row: Seq<ScalarView>,
        diff: Diff,
        timestamp: Timestamp,
        after: Self,
        outcome: Result<(), SinkError>,
    ) -> bool {
        outcome is Ok
    }

    open spec fn watermark_step(
        before: Self,
        watermark: Timestamp,
        after: Self,
        outcome: Result<(), SinkError>,
    ) -> bool {
        outcome is Ok
    }

    fn push(&mut self, row: Row, diff: Diff, timestamp: Timestamp) -> (outcome: Result<
        (),
        SinkError,
    >) {
        Ok(())
    }

    fn watermark(&mut self, watermark: Timestamp) -> (outcome: Result<(), SinkError>) {
        Ok(())
    }
}

/// What the answer of a sink means for the operator that feeds it.
pub open spec fn sink_outcome(outcome: Result<(), SinkError>) -> Result<(), OperatorError> {
    match outcome {
        Ok(_) => Ok(()),
        Err(error) => Err(OperatorError::Sink(error)),
    }
}

/// What the answer of a sink means for the operator that feeds it.
pub(crate) fn from_sink(outcome: Result<(), SinkError>) -> (result: Result<(), OperatorError>)
    ensures
        result == sink_outcome(outcome),
{
    match outcome {
        Ok(()) => Ok(()),
        Err(error) => Err(OperatorError::Sink(error)),
    }
}

/// The sink took a row and the operator answered accordingly.
pub open spec fn forwards<S: RowSink>(
    before: S,
    row: Seq<ScalarView>,
    diff: Diff,
    timestamp: Timestamp,
    after: S,
    result: Result<(), OperatorError>,
) -> bool {
    exists|outcome: Result<(), SinkError>|
        #[trigger] S::push_step(before, row, diff, timestamp, after, outcome) && result
            == sink_outcome(outcome)
}

/// The sink took a watermark and the operator answered accordingly.
pub open spec fn passes_watermark<S: RowSink>(
    before: S,
    watermark: Timestamp,
    after: S,
    result: Result<(), OperatorError>,
) -> bool {
    exists|outcome: Result<(), SinkError>|
        #[trigger] S::watermark_step(before, watermark, after, outcome) && result == sink_outcome(
            outcome,
        )
}

} // verus!
