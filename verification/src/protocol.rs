//! The checkpoint cycle of one task.

use crate::backend::BackingStore;
use crate::error::StateError;
use crate::metadata::{CheckpointBarrier, CheckpointMetadata};
use crate::store::StateStore;
use vstd::prelude::*;

verus! {

/// Where a task stands in its checkpoint cycle.
#[derive(Clone, Copy, Debug, PartialEq, Eq, Structural)]
pub enum CheckpointPhase {
    /// No checkpoint was ever requested.
    Idle,
    /// A barrier arrived; nothing is flushed yet.
    CheckpointRequested,
    /// The resident caches are being flushed.
    Flushing,
    /// The backend returned the flushed epoch.
    Completed,
    /// Completion was reported outward.
    Acknowledged,
}

/// The checkpoint cycle of one task: its phase, and the epoch and minimum
/// epoch of the barrier it last accepted (both 0 before the first).
#[derive(Clone, Copy, Debug, PartialEq, Eq, Structural)]
pub struct CheckpointCycle {
    pub phase: CheckpointPhase,
    pub epoch: u32,
    pub min_epoch: u32,
}

impl CheckpointCycle {
    /// The oldest epoch still required never exceeds the current epoch.
    pub open spec fn wf(&self) -> bool {
        self.min_epoch <= self.epoch
    }

    /// No flush is in flight.
    pub open spec fn at_rest(&self) -> bool {
        self.phase == CheckpointPhase::Idle || self.phase == CheckpointPhase::Acknowledged
    }

    /// A barrier is accepted when no flush is in flight, its epoch exceeds
    /// every epoch accepted before, and its minimum epoch does not exceed
    /// its epoch.
    pub open spec fn accepts(&self, barrier: CheckpointBarrier) -> bool {
        self.at_rest() && barrier.epoch > self.epoch && barrier.min_epoch <= barrier.epoch
    }

    /// The cycle of a task that starts without prior state.
    pub fn new() -> (cycle: CheckpointCycle)
        ensures
            cycle == (CheckpointCycle { phase: CheckpointPhase::Idle, epoch: 0, min_epoch: 0 }),
            cycle.wf(),
    {
        CheckpointCycle { phase: CheckpointPhase::Idle, epoch: 0, min_epoch: 0 }
    }

    /// The cycle of a task that resumes from a checkpoint: at rest, at the
    /// checkpoint's epoch. A checkpoint whose minimum epoch exceeds its
    /// epoch is no checkpoint to resume from.
    pub fn resume(metadata: &CheckpointMetadata) -> (r: Result<CheckpointCycle, StateError>)
        ensures
            match r {
                Ok(cycle) => metadata.well_formed() && cycle.wf() && cycle == (CheckpointCycle {
                    phase: CheckpointPhase::Idle,
                    epoch: metadata.epoch,
                    min_epoch: metadata.min_epoch,
                }),
                Err(e) => !metadata.well_formed() && e == (StateError::InvalidBarrier {
                    epoch: metadata.epoch,
                }),
            },
    {
        if metadata.min_epoch <= metadata.epoch {
            Ok(
                CheckpointCycle {
                    phase: CheckpointPhase::Idle,
                    epoch: metadata.epoch,
                    min_epoch: metadata.min_epoch,
                },
            )
        } else {
            Err(StateError::InvalidBarrier { epoch: metadata.epoch })
        }
    }

    /// A barrier arrives. An accepted barrier starts a new cycle at its
    /// epoch; a barrier that arrives while a flush is in flight is out of
    /// order, and one that does not advance the epoch is invalid. A
    /// rejected barrier changes nothing.
    pub fn on_barrier(&mut self, barrier: CheckpointBarrier) -> (r: Result<(), StateError>)
        ensures
            r is Ok <==> old(self).accepts(barrier),
            match r {
                Ok(_) => *final(self) == (CheckpointCycle {
                    phase: CheckpointPhase::CheckpointRequested,
                    epoch: barrier.epoch,
                    min_epoch: barrier.min_epoch,
                }),
                Err(e) => *final(self) == *old(self) && e == if old(self).at_rest() {
                    StateError::InvalidBarrier { epoch: barrier.epoch }
                } else {
                    StateError::OutOfOrder
                },
            },
    {
        let at_rest = match self.phase {
            CheckpointPhase::Idle => true,
            CheckpointPhase::Acknowledged => true,
            _ => false,
        };
        if !at_rest {
            Err(StateError::OutOfOrder)
        } else if barrier.epoch > self.epoch && barrier.min_epoch <= barrier.epoch {
            self.phase = CheckpointPhase::CheckpointRequested;
            self.epoch = barrier.epoch;
            self.min_epoch = barrier.min_epoch;
            Ok(())
        } else {
            Err(StateError::InvalidBarrier { epoch: barrier.epoch })
        }
    }

    /// The flush of the resident caches begins. Out of order unless a
    /// barrier was just accepted.
    pub fn on_flush_started(&mut self) -> (r: Result<(), StateError>)
        ensures
            r is Ok <==> old(self).phase == CheckpointPhase::CheckpointRequested,
            match r {
                Ok(_) => *final(self) == (CheckpointCycle {
                    phase: CheckpointPhase::Flushing,
                    ..*old(self)
                }),
                Err(e) => *final(self) == *old(self) && e == StateError::OutOfOrder,
            },
    {
        match self.phase {
            CheckpointPhase::CheckpointRequested => {
                self.phase = CheckpointPhase::Flushing;
                Ok(())
            },
            _ => Err(StateError::OutOfOrder),
        }
    }

    /// The backend returned the epoch it flushed. Out of order unless a
    /// flush is in flight; invalid unless the epoch is the barrier's.
    /// Returns the oldest epoch still required, below which older epochs
    /// may be cleaned up.
    pub fn on_flushed(&mut self, epoch: u32) -> (r: Result<u32, StateError>)
        ensures
            r is Ok <==> old(self).phase == CheckpointPhase::Flushing && epoch == old(self).epoch,
            match r {
                Ok(min_epoch) => min_epoch == old(self).min_epoch && *final(self) == (
                CheckpointCycle { phase: CheckpointPhase::Completed, ..*old(self) }),
                Err(e) => *final(self) == *old(self) && e == if old(self).phase
                    == CheckpointPhase::Flushing {
                    StateError::InvalidBarrier { epoch }
                } else {
                    StateError::OutOfOrder
                },
            },
    {
        match self.phase {
            CheckpointPhase::Flushing => {
                if epoch == self.epoch {
                    self.phase = CheckpointPhase::Completed;
                    Ok(self.min_epoch)
                } else {
                    Err(StateError::InvalidBarrier { epoch })
                }
            },
            _ => Err(StateError::OutOfOrder),
        }
    }

    /// Completion was reported outward. Out of order unless the flush
    /// completed.
    pub fn on_acknowledged(&mut self) -> (r: Result<(), StateError>)
        ensures
            r is Ok <==> old(self).phase == CheckpointPhase::Completed,
            match r {
                Ok(_) => *final(self) == (CheckpointCycle {
                    phase: CheckpointPhase::Acknowledged,
                    ..*old(self)
                }),
                Err(e) => *final(self) == *old(self) && e == StateError::OutOfOrder,
            },
    {
        match self.phase {
            CheckpointPhase::Completed => {
                self.phase = CheckpointPhase::Acknowledged;
                Ok(())
            },
            _ => Err(StateError::OutOfOrder),
        }
    }
}

/// Epochs are strictly increasing: a cycle that accepts a barrier moves to
/// a larger epoch and stays well-formed, and no later step changes the
/// epoch.
pub proof fn lemma_epochs_increase(before: CheckpointCycle, barrier: CheckpointBarrier)
    requires
        before.accepts(barrier),
    ensures
        barrier.epoch > before.epoch,
        (CheckpointCycle {
            phase: CheckpointPhase::CheckpointRequested,
            epoch: barrier.epoch,
            min_epoch: barrier.min_epoch,
        }).wf(),
{
}

/// Takes a barrier through the cycle up to the completed flush: the barrier
/// is accepted, the store flushes its resident caches, and the backend's
/// epoch is checked against the barrier's. A barrier that the cycle rejects
/// changes neither the cycle nor the store.
pub fn checkpoint_with<S: BackingStore>(
    store: &mut StateStore<S>,
    cycle: &mut CheckpointCycle,
    barrier: CheckpointBarrier,
    watermark: Option<u64>,
) -> (r: Result<u32, StateError>)
    requires
        old(store).wf(),
    ensures
        r is Ok <==> old(cycle).accepts(barrier),
        match r {
            Ok(epoch) => {
                &&& epoch == barrier.epoch
                &&& *final(cycle) == (CheckpointCycle {
                    phase: CheckpointPhase::Completed,
                    epoch: barrier.epoch,
                    min_epoch: barrier.min_epoch,
                })
                &&& final(store).wf()
                &&& final(store).is_flush_of(old(store), barrier.epoch, watermark)
            },
            Err(e) => {
                &&& *final(cycle) == *old(cycle)
                &&& *final(store) == *old(store)
                &&& e == if old(cycle).at_rest() {
                    StateError::InvalidBarrier { epoch: barrier.epoch }
                } else {
                    StateError::OutOfOrder
                }
            },
        },
{
    match cycle.on_barrier(barrier) {
        Ok(_) => {},
        Err(e) => {
            return Err(e);
        },
    }
    let _ = cycle.on_flush_started();
    let epoch = store.checkpoint(barrier, watermark);
    let _ = cycle.on_flushed(epoch);
    Ok(epoch)
}

} // verus!
