//! Rows that come from a source.

use vstd::prelude::*;

use super::{from_sink, OperatorError, RowSink};
use crate::stream_types::{Diff, InputPort, Timestamp};
use crate::values;
use crate::values::Row;

verus! {

/// Brings the rows of a source in; it has no inputs of its own.
#[derive(Debug)]
pub struct ScanOperator<S: RowSink> {
    pub source_name: String,
    pub sink: S,
}

impl<S: RowSink> ScanOperator<S> {
    /// A scan of a source that feeds `sink`.
    pub fn new(source_name: String, sink: S) -> (operator: Self)
        ensures
            operator.source_name == source_name,
            operator.sink == sink,
    {
        ScanOperator { source_name, sink }
    }

    /// The name of the source.
    pub fn source(&self) -> (name: &str)
        ensures
            name@ == self.source_name@,
    {
        self.source_name.as_str()
    }

    /// Hands a row of the source to the sink.
    pub fn ingest(&mut self, row: Row, diff: Diff, timestamp: Timestamp) -> (result: Result<
        (),
        OperatorError,
    >)
        ensures
            super::forwards(
                old(self).sink,
                values::row_view(row@),
                diff,
                timestamp,
                final(self).sink,
                result,
            ),
            final(self).source_name == old(self).source_name,
    {
        from_sink(self.sink.push(row, diff, timestamp))
    }

    /// The sink that is fed.
    pub fn sink(&self) -> (sink: &S)
        ensures
            *sink == self.sink,
    {
        &self.sink
    }

    /// Scans take no input.
    pub fn on_input(
        &mut self,
        input: InputPort,
        row: Row,
        diff: Diff,
        timestamp: Timestamp,
    ) -> (result: Result<(), OperatorError>)
        ensures
            result == Err::<(), OperatorError>(OperatorError::ScanTakesNoInput),
            *final(self) == *old(self),
    {
        Err(OperatorError::ScanTakesNoInput)
    }

    /// Hands a watermark to the sink.
    pub fn on_watermark(&mut self, watermark: Timestamp) -> (result: Result<(), OperatorError>)
        ensures
            super::passes_watermark(old(self).sink, watermark, final(self).sink, result),
            final(self).source_name == old(self).source_name,
    {
        from_sink(self.sink.watermark(watermark))
    }
}

} // verus!
