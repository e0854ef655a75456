//! Barriers: the clock of the steps and the stages at which a step can be made to fail.

use vstd::prelude::*;

use crate::stream_types::Timestamp;

verus! {

/// Stages of a step.
#[derive(Clone, Copy, Debug, PartialEq, Eq, Structural)]
pub enum BarrierStage {
    AfterOperatorFlush,
    AfterMaterializedViewFlush,
    AfterSealBeforeCommit,
    AfterOffsetsBeforeCommit,
    AfterCommit,
}

/// Passes a stage: it fails, once, at the stage that a failpoint is set to.
pub fn run_barrier_hook(failpoint: &mut Option<BarrierStage>, stage: BarrierStage) -> (outcome:
    Result<(), BarrierStage>)
    ensures
        if *old(failpoint) == Some(stage) {
            outcome == Err::<(), BarrierStage>(stage) && *final(failpoint) is None
        } else {
            outcome == Ok::<(), BarrierStage>(()) && *final(failpoint) == *old(failpoint)
        },
{
    match *failpoint {
        Some(armed) => {
            if armed == stage {
                *failpoint = None;
                return Err(stage);
            }
            Ok(())
        },
        None => Ok(()),
    }
}

/// The clock of the steps: how far the watermark got, and in how many steps.
#[derive(Clone, Copy, Debug, PartialEq, Eq, Structural)]
pub struct BarrierClock {
    pub watermark: Timestamp,
    pub step: u64,
}

impl BarrierClock {
    /// A clock at the start.
    pub fn new() -> (clock: Self)
        ensures
            clock == (BarrierClock { watermark: 0, step: 0 }),
    {
        BarrierClock { watermark: 0, step: 0 }
    }

    /// Moves the watermark forward, which makes a step; a watermark that is not larger makes
    /// none.
    pub fn advance(&mut self, watermark: Timestamp) -> (step: Option<u64>)
        ensures
            if watermark > old(self).watermark {
                &&& final(self).watermark == watermark
                &&& final(self).step == (if old(self).step == u64::MAX {
                    u64::MAX
                } else {
                    (old(self).step + 1) as u64
                })
                &&& step == Some(final(self).step)
            } else {
                *final(self) == *old(self) && step is None
            },
            moved(*old(self), watermark, *final(self), step),
    {
        if watermark <= self.watermark {
            return None;
        }
        self.watermark = watermark;
        if self.step < u64::MAX {
            self.step = self.step + 1;
        }
        Some(self.step)
    }

    /// Starts at a watermark that was reached before.
    pub fn bootstrap(&mut self, watermark: Timestamp)
        ensures
            *final(self) == (BarrierClock { watermark, ..*old(self) }),
    {
        self.watermark = watermark;
    }
}

/// A clock after it heard a watermark, and the step that this began.
pub open spec fn moved(
    before: BarrierClock,
    watermark: Timestamp,
    after: BarrierClock,
    step: Option<u64>,
) -> bool {
    if watermark > before.watermark {
        &&& after.watermark == watermark
        &&& after.step == (if before.step == u64::MAX {
            u64::MAX
        } else {
            (before.step + 1) as u64
        })
        &&& step == Some(after.step)
    } else {
        after == before && step is None
    }
}

/// A step begins with each watermark above all earlier ones, and with no other; steps are numbered
/// one by one, and the clock never goes back.
pub proof fn law_steps_begin_with_later_watermarks(
    before: BarrierClock,
    watermark: Timestamp,
    after: BarrierClock,
    step: Option<u64>,
)
    requires
        moved(before, watermark, after, step),
    ensures
        step is Some <==> before.watermark < watermark,
        after.watermark >= before.watermark && after.watermark >= watermark,
        after.watermark == before.watermark || after.watermark == watermark,
        step matches Some(number) ==> number == after.step && (number == before.step + 1 || number
            == u64::MAX && before.step == u64::MAX),
        step is None ==> after.step == before.step,
{
}

} // verus!
