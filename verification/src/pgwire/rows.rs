//! Sending rows to a client.

use bytes::BytesMut;
use vstd::prelude::*;

use super::buffer;
use super::cells;
use super::cells::CellError;
use super::encode;
use super::encode::encode_tail_rows;
use super::messages;
use super::messages::push_data_row;
use super::session::{TailBatchCursor, TailPortalState};
use crate::columns::{clone_schema, ColumnBatch, Field};

verus! {

/// The number of rows that are gathered before they are sent, unless it is set.
pub const DEFAULT_DATA_ROW_FLUSH_LIMIT: usize = 1024;

/// How the server sends rows.
#[derive(Debug)]
pub struct PgwireServerConfig {
    data_row_flush_limit: usize,
}

impl Clone for PgwireServerConfig {
    fn clone(&self) -> (copy: Self)
        ensures
            copy == *self,
    {
        PgwireServerConfig { data_row_flush_limit: self.data_row_flush_limit }
    }
}

impl Default for PgwireServerConfig {
    fn default() -> (config: Self)
        ensures
            config.flush_limit() == DEFAULT_DATA_ROW_FLUSH_LIMIT,
    {
        PgwireServerConfig { data_row_flush_limit: DEFAULT_DATA_ROW_FLUSH_LIMIT }
    }
}

impl PgwireServerConfig {
    /// The number of rows that are gathered before they are sent.
    pub closed spec fn flush_limit(&self) -> usize {
        self.data_row_flush_limit
    }

    /// Sets the number of rows that are gathered before they are sent, at least one.
    pub fn with_data_row_flush_limit(self, limit: usize) -> (config: Self)
        ensures
            config.flush_limit() == (if limit > 1 {
                limit
            } else {
                1
            }),
    {
        PgwireServerConfig {
            data_row_flush_limit: if limit > 1 {
                limit
            } else {
                1
            },
        }
    }

    /// The number of rows that are gathered before they are sent.
    pub fn data_row_flush_limit(&self) -> (limit: usize)
        ensures
            limit == self.flush_limit(),
    {
        self.data_row_flush_limit
    }
}

/// The rows of a query.
#[derive(Debug)]
pub struct QueryResult {
    pub schema: Vec<Field>,
    pub batches: Vec<ColumnBatch>,
}

/// Batches with the schema of the first one; without batches there are no columns.
pub fn to_query_result(batches: Vec<ColumnBatch>) -> (result: QueryResult)
    ensures
        result.batches == batches,
        result.schema@ == (if batches@.len() > 0 {
            batches@[0].schema@
        } else {
            Seq::empty()
        }),
{
    let schema: Vec<Field> = if batches.len() > 0 {
        clone_schema(&batches[0].schema)
    } else {
        Vec::new()
    };
    assert(batches@.len() == 0 ==> schema@ =~= Seq::empty());
    QueryResult { schema, batches }
}

/// What to do once a row is in the buffer.
#[derive(Clone, Copy, Debug, PartialEq, Eq, Structural)]
pub struct RowStep {
    /// The buffer is to be sent and emptied.
    pub flush: bool,
    /// No more rows are wanted.
    pub stop: bool,
}

/// How far the rows of a query are sent.
#[derive(Debug)]
pub struct RowProgress {
    pub total_rows: usize,
    pub buffered_rows: usize,
    pub row_limit: Option<usize>,
    pub flush_limit: usize,
    pub version: Option<u64>,
}

impl RowProgress {
    /// No row is sent yet.
    pub fn new(row_limit: Option<usize>, flush_limit: usize, version: Option<u64>) -> (progress:
        Self)
        ensures
            progress == (RowProgress {
                total_rows: 0,
                buffered_rows: 0,
                row_limit,
                flush_limit,
                version,
            }),
    {
        RowProgress { total_rows: 0, buffered_rows: 0, row_limit, flush_limit, version }
    }

    /// Appends a row of a batch, with the version behind its cells where there is one, and tells
    /// whether the buffer is to be sent and whether more rows are wanted. Nothing happens where a
    /// cell has no text.
    pub fn push_row(&mut self, batch: &ColumnBatch, row: usize, buf: &mut BytesMut) -> (result:
        Result<RowStep, CellError>)
        requires
            cells::level(*batch),
            row < batch.rows,
            batch.columns@.len() + (if old(self).version is Some {
                1int
            } else {
                0
            }) <= i16::MAX,
            old(self).buffered_rows <= old(self).total_rows < usize::MAX,
        ensures
            match (cells::sent_row(*batch, row as int), result) {
                (Ok(texts), Ok(step)) => {
                    &&& buffer::buffered(*final(buf)) == buffer::buffered(*old(buf))
                        + messages::data_row(
                        texts,
                        match old(self).version {
                            Some(version) => Some(Some(version)),
                            None => None,
                        },
                    )
                    &&& step.flush == (old(self).buffered_rows + 1 >= old(self).flush_limit)
                    &&& step.stop == (old(self).row_limit matches Some(limit) && old(
                        self,
                    ).total_rows + 1 >= limit)
                    &&& *final(self) == (RowProgress {
                        total_rows: (old(self).total_rows + 1) as usize,
                        buffered_rows: if step.flush {
                            0
                        } else {
                            (old(self).buffered_rows + 1) as usize
                        },
                        ..*old(self)
                    })
                },
                (Err(error), Err(found)) => {
                    &&& found == error
                    &&& buffer::buffered(*final(buf)) == buffer::buffered(*old(buf))
                    &&& *final(self) == *old(self)
                },
                _ => false,
            },
            result matches Ok(step) ==> row_counted(*old(self), *final(self), step),
    {
        let extra: Option<Option<u64>> = match self.version {
            Some(version) => Some(Some(version)),
            None => None,
        };
        match push_data_row(buf, batch, row, extra) {
            Ok(()) => {},
            Err(error) => {
                return Err(error);
            },
        }
        self.buffered_rows = self.buffered_rows + 1;
        self.total_rows = self.total_rows + 1;
        let flush: bool = self.buffered_rows >= self.flush_limit;
        if flush {
            self.buffered_rows = 0;
        }
        let stop: bool = match self.row_limit {
            Some(limit) => self.total_rows >= limit,
            None => false,
        };
        Ok(RowStep { flush, stop })
    }

    /// Whether rows are left in the buffer.
    pub fn has_rows_left(&self) -> (left: bool)
        ensures
            left == (self.buffered_rows > 0),
    {
        self.buffered_rows > 0
    }
}

/// How the sending of changes ended, with the number of rows that were sent.
#[derive(Clone, Copy, Debug, PartialEq, Eq, Structural)]
pub enum TailStreamOutcome {
    /// The row limit is reached.
    Suspended { rows: usize },
    /// There are no more changes.
    Completed { rows: usize },
    /// The client asked to stop.
    Canceled { rows: usize },
}

/// What to do next to send changes.
#[derive(Clone, Copy, Debug, PartialEq, Eq, Structural)]
pub enum TailAction {
    /// What is left in the buffer is to be sent; then the sending ends.
    Finish(TailStreamOutcome),
    /// The next batch is to be fetched.
    Fetch,
    /// The buffer is to be sent and emptied.
    Flush,
    /// Nothing is to be done before the next step.
    Proceed,
}

/// What came of fetching the next batch.
#[derive(Debug)]
pub enum TailEvent {
    /// A batch of rows at a version.
    Batch(ColumnBatch, i64),
    /// There are no more batches.
    Ended,
    /// The client asked to stop.
    Canceled,
}

/// How far changes are sent.
#[derive(Debug)]
pub struct TailProgress {
    pub rows_sent: usize,
    pub buffered_rows: usize,
    pub row_limit: Option<usize>,
    pub flush_limit: usize,
}

/// The batch that is being sent, unless all of its rows are sent.
pub open spec fn unsent(batch: Option<TailBatchCursor>) -> Option<TailBatchCursor> {
    match batch {
        Some(cursor) => if cursor.next_row >= cursor.batch.rows {
            None
        } else {
            Some(cursor)
        },
        None => None,
    }
}

/// How many rows of a batch are sent at once: all that are left, up to the row limit.
pub open spec fn allowed(progress: TailProgress, cursor: TailBatchCursor) -> int {
    let available = cursor.batch.rows - cursor.next_row;
    match progress.row_limit {
        Some(limit) => if limit - progress.rows_sent < available {
            limit - progress.rows_sent
        } else {
            available
        },
        None => available,
    }
}

/// The row limit is reached.
pub open spec fn at_limit(progress: TailProgress) -> bool {
    progress.row_limit matches Some(limit) && progress.rows_sent >= limit
}

/// The rows of a batch that may be sent at once are sent.
pub open spec fn rows_taken<S>(
    before: TailProgress,
    after: TailProgress,
    cursor: TailBatchCursor,
    state: TailPortalState<S>,
    action: TailAction,
) -> bool {
    let count = allowed(before, cursor);
    &&& after.rows_sent == before.rows_sent + count
    &&& match unsent(state.current_batch) {
        Some(left) => left.batch == cursor.batch && left.version == cursor.version && left.next_row
            == cursor.next_row + count,
        None => cursor.next_row + count == cursor.batch.rows,
    }
    &&& if before.buffered_rows + count >= before.flush_limit {
        action == TailAction::Flush && after.buffered_rows == 0
    } else {
        action == TailAction::Proceed && after.buffered_rows == before.buffered_rows + count
    }
}

impl TailProgress {
    /// No row is sent yet.
    pub fn new(row_limit: Option<usize>, flush_limit: usize) -> (progress: Self)
        ensures
            progress == (TailProgress { rows_sent: 0, buffered_rows: 0, row_limit, flush_limit }),
    {
        TailProgress { rows_sent: 0, buffered_rows: 0, row_limit, flush_limit }
    }

    /// Takes one step: ends at the row limit or behind the last batch, asks for a batch, or
    /// appends the rows that may still be sent. Nothing happens where one of their cells has no
    /// text.
    pub fn advance<S>(&mut self, state: &mut TailPortalState<S>, buf: &mut BytesMut) -> (result:
        Result<TailAction, CellError>)
        requires
            old(self).buffered_rows <= old(self).rows_sent,
            old(state).current_batch matches Some(cursor) ==> cells::level(cursor.batch)
                && cursor.batch.columns@.len() + 3 <= i16::MAX && old(self).rows_sent
                + cursor.batch.rows <= usize::MAX,
        ensures
            final(self).row_limit == old(self).row_limit,
            final(self).flush_limit == old(self).flush_limit,
            final(state).stream == old(state).stream,
            final(state).schema == old(state).schema,
            final(state).finished == old(state).finished,
            final(self).buffered_rows <= final(self).rows_sent,
            !at_limit(*old(self)) ==> (final(self).row_limit matches Some(limit)
                ==> final(self).rows_sent <= limit),
            if at_limit(*old(self)) {
                &&& result == Ok::<TailAction, CellError>(
                    TailAction::Finish(TailStreamOutcome::Suspended { rows: old(self).rows_sent }),
                )
                &&& *final(self) == *old(self)
                &&& *final(state) == *old(state)
                &&& buffer::buffered(*final(buf)) == buffer::buffered(*old(buf))
            } else {
                match unsent(old(state).current_batch) {
                    None => {
                        &&& result == Ok::<TailAction, CellError>(
                            if old(state).finished {
                                TailAction::Finish(
                                    TailStreamOutcome::Completed { rows: old(self).rows_sent },
                                )
                            } else {
                                TailAction::Fetch
                            },
                        )
                        &&& *final(self) == *old(self)
                        &&& final(state).current_batch is None
                        &&& buffer::buffered(*final(buf)) == buffer::buffered(*old(buf))
                    },
                    Some(cursor) => {
                        let count = allowed(*old(self), cursor);
                        &&& count > 0
                        &&& match (
                            cells::sent_rows(
                                cursor.batch,
                                cursor.next_row as int,
                                cursor.next_row + count,
                            ),
                            result,
                        ) {
                            (Ok(rows), Ok(action)) => {
                                &&& buffer::buffered(*final(buf)) == buffer::buffered(*old(buf))
                                    + encode::tail_rows(rows, cursor.version, rows.len())
                                &&& rows_taken(
                                    *old(self),
                                    *final(self),
                                    cursor,
                                    *final(state),
                                    action,
                                )
                            },
                            (Err(error), Err(found)) => {
                                &&& found == error
                                &&& *final(self) == *old(self)
                                &&& *final(state) == *old(state)
                                &&& buffer::buffered(*final(buf)) == buffer::buffered(*old(buf))
                            },
                            _ => false,
                        }
                    },
                }
            },
    {
        if let Some(limit) = self.row_limit {
            if self.rows_sent >= limit {
                return Ok(
                    TailAction::Finish(TailStreamOutcome::Suspended { rows: self.rows_sent }),
                );
            }
        }
        let mut current: Option<TailBatchCursor> = None;
        std::mem::swap(&mut current, &mut state.current_batch);
        let mut cursor = match current {
            Some(cursor) => cursor,
            None => {
                return Ok(self.without_batch(state.finished));
            },
        };
        let total: usize = cursor.batch.rows;
        if cursor.next_row >= total {
            return Ok(self.without_batch(state.finished));
        }
        let available: usize = total - cursor.next_row;
        let count: usize = match self.row_limit {
            Some(limit) => if limit - self.rows_sent < available {
                limit - self.rows_sent
            } else {
                available
            },
            None => available,
        };
        match encode_tail_rows(
            buf,
            &cursor.batch,
            cursor.next_row,
            cursor.next_row + count,
            cursor.version,
        ) {
            Ok(()) => {},
            Err(error) => {
                state.current_batch = Some(cursor);
                return Err(error);
            },
        }
        self.buffered_rows = self.buffered_rows + count;
        self.rows_sent = self.rows_sent + count;
        cursor.next_row = cursor.next_row + count;
        if cursor.next_row < total {
            state.current_batch = Some(cursor);
        }
        if self.buffered_rows >= self.flush_limit {
            self.buffered_rows = 0;
            Ok(TailAction::Flush)
        } else {
            Ok(TailAction::Proceed)
        }
    }

    /// What is done where there is no batch: the next one is fetched, unless there are no more.
    fn without_batch(&self, finished: bool) -> (action: TailAction)
        ensures
            action == (if finished {
                TailAction::Finish(TailStreamOutcome::Completed { rows: self.rows_sent })
            } else {
                TailAction::Fetch
            }),
    {
        if finished {
            TailAction::Finish(TailStreamOutcome::Completed { rows: self.rows_sent })
        } else {
            TailAction::Fetch
        }
    }

    /// Takes the next batch, or that there is none; where the client asked to stop, the sending
    /// ends.
    pub fn deliver<S>(&self, state: &mut TailPortalState<S>, event: TailEvent) -> (action:
        TailAction)
        ensures
            final(state).stream == old(state).stream,
            final(state).schema == old(state).schema,
            match event {
                TailEvent::Batch(batch, version) => action == TailAction::Proceed
                    && final(state).current_batch == Some(
                    TailBatchCursor { batch, version, next_row: 0 },
                ) && final(state).finished == old(state).finished,
                TailEvent::Ended => action == TailAction::Proceed && final(state).finished
                    && final(state).current_batch == old(state).current_batch,
                TailEvent::Canceled => action == TailAction::Finish(
                    TailStreamOutcome::Canceled { rows: self.rows_sent },
                ) && *final(state) == *old(state),
            },
    {
        match event {
            TailEvent::Batch(batch, version) => {
                state.current_batch = Some(TailBatchCursor { batch, version, next_row: 0 });
                TailAction::Proceed
            },
            TailEvent::Ended => {
                state.finished = true;
                TailAction::Proceed
            },
            TailEvent::Canceled => TailAction::Finish(
                TailStreamOutcome::Canceled { rows: self.rows_sent },
            ),
        }
    }
}

/// As many rows of a batch are sent as are left of it and as the limit still lets through,
/// whichever are fewer.
pub proof fn law_rows_stay_within_the_limit(progress: TailProgress, cursor: TailBatchCursor)
    requires
        cursor.next_row <= cursor.batch.rows,
        !at_limit(progress),
    ensures
        0 <= allowed(progress, cursor) <= cursor.batch.rows - cursor.next_row,
        progress.row_limit matches Some(limit) ==> progress.rows_sent + allowed(progress, cursor)
            <= limit,
        allowed(progress, cursor) == cursor.batch.rows - cursor.next_row || (
        progress.row_limit matches Some(limit) && progress.rows_sent + allowed(progress, cursor)
            == limit),
        at_limit(progress) <==> (progress.row_limit matches Some(limit) && limit
            <= progress.rows_sent),
{
}

/// A batch is looked at until its last row is sent.
pub proof fn law_batch_stays_until_it_is_sent(cursor: TailBatchCursor)
    ensures
        unsent(Some(cursor)) is Some <==> cursor.next_row < cursor.batch.rows,
        unsent(Some(cursor)) matches Some(left) ==> left == cursor,
        unsent(None) is None,
{
}

/// Taking rows counts each of them once: those that were sent and those that are left of the batch
/// are as many as before, and what waits in the buffer is sent once it reaches the limit.
pub proof fn law_rows_are_counted_once<S>(
    before: TailProgress,
    after: TailProgress,
    cursor: TailBatchCursor,
    state: TailPortalState<S>,
    action: TailAction,
)
    requires
        rows_taken(before, after, cursor, state, action),
        cursor.next_row <= cursor.batch.rows,
    ensures
        after.rows_sent + (match unsent(state.current_batch) {
            Some(left) => left.batch.rows - left.next_row,
            None => 0,
        }) == before.rows_sent + (cursor.batch.rows - cursor.next_row),
        after.buffered_rows == 0 || after.buffered_rows < before.flush_limit,
        action is Flush ==> after.buffered_rows == 0,
        !(action is Flush) ==> after.buffered_rows - before.buffered_rows == after.rows_sent
            - before.rows_sent,
{
}

/// How far the rows of a query are sent after one more of them, and what is to be done then.
pub open spec fn row_counted(before: RowProgress, after: RowProgress, step: RowStep) -> bool {
    &&& after.total_rows == before.total_rows + 1
    &&& step.flush == (before.buffered_rows + 1 >= before.flush_limit)
    &&& step.stop == (before.row_limit matches Some(limit) && before.total_rows + 1 >= limit)
    &&& after.buffered_rows == (if step.flush {
        0
    } else {
        before.buffered_rows + 1
    })
    &&& after.row_limit == before.row_limit
    &&& after.flush_limit == before.flush_limit
    &&& after.version == before.version
}

/// No more rows than the limit are sent, and all of them up to it: the row with which the limit is
/// reached is the last. The buffer never holds as many rows as it is sent with.
pub proof fn law_query_rows_stop_at_the_limit(
    before: RowProgress,
    after: RowProgress,
    step: RowStep,
)
    requires
        row_counted(before, after, step),
    ensures
        before.row_limit matches Some(limit) ==> {
            &&& before.total_rows < limit ==> after.total_rows <= limit
            &&& step.stop <==> after.total_rows >= limit
        },
        before.row_limit is None ==> !step.stop,
        after.buffered_rows == 0 || after.buffered_rows < after.flush_limit,
        step.flush ==> after.buffered_rows == 0,
        !step.flush ==> after.buffered_rows - before.buffered_rows == after.total_rows
            - before.total_rows,
{
}

} // verus!
