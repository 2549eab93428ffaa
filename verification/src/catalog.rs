//! The record of a job's completed checkpoints.

use crate::error::StateError;
use crate::metadata::CheckpointMetadata;
use vstd::prelude::*;

verus! {

/// Epochs grow strictly along the list.
pub open spec fn increasing(completed: Seq<CheckpointMetadata>) -> bool {
    forall|i: int, j: int|
        0 <= i < j < completed.len() ==> (#[trigger] completed[i]).epoch < (
        #[trigger] completed[j]).epoch
}

/// The completed checkpoints of a job, oldest first. A checkpoint is
/// recorded once and never changed; later epochs supersede it, and it is
/// deleted only when its epoch has fallen below the minimum epoch.
#[derive(Debug)]
pub struct CheckpointCatalog {
    completed: Vec<CheckpointMetadata>,
    latest: Option<u32>,
}

impl View for CheckpointCatalog {
    type V = Seq<CheckpointMetadata>;

    closed spec fn view(&self) -> Seq<CheckpointMetadata> {
        self.completed@
    }
}

impl CheckpointCatalog {
    /// Epochs grow strictly, and no checkpoint requires an epoch newer than
    /// its own.
    pub closed spec fn wf(&self) -> bool {
        &&& increasing(self.completed@)
        &&& forall|i: int|
            0 <= i < self.completed.len() ==> (#[trigger] self.completed[i]).well_formed()
        &&& forall|i: int|
            0 <= i < self.completed.len() ==> (self.latest matches Some(latest) && (
            #[trigger] self.completed[i]).epoch <= latest)
    }

    /// The newest epoch ever completed, whether or not its checkpoint is
    /// still recorded.
    pub closed spec fn latest(&self) -> Option<u32> {
        self.latest
    }

    /// A well-formed catalog lists its checkpoints by strictly growing
    /// epoch, each with a minimum epoch that does not exceed its epoch.
    pub proof fn lemma_wf(&self)
        requires
            self.wf(),
        ensures
            increasing(self@),
            forall|i: int| 0 <= i < self@.len() ==> (#[trigger] self@[i]).well_formed(),
            self@.len() > 0 ==> self.latest() is Some && self@.last().epoch <= self.latest()->0,
    {
        if self@.len() > 0 {
            assert(self.completed[self.completed.len() - 1].well_formed());
        }
    }

    /// A catalog without checkpoints.
    pub fn new() -> (catalog: CheckpointCatalog)
        ensures
            catalog.wf(),
            catalog@ == Seq::<CheckpointMetadata>::empty(),
            catalog.latest() is None,
    {
        CheckpointCatalog { completed: Vec::new(), latest: None }
    }

    /// Whether a checkpoint can be recorded: its minimum epoch does not
    /// exceed its epoch, and its epoch exceeds every epoch completed so far.
    pub open spec fn admits(&self, metadata: CheckpointMetadata) -> bool {
        metadata.well_formed() && (self.latest() matches Some(epoch) ==> epoch < metadata.epoch)
    }

    /// Records a checkpoint as complete. A checkpoint that the catalog does
    /// not admit is refused and changes nothing.
    pub fn complete_checkpoint(&mut self, metadata: CheckpointMetadata) -> (r: Result<
        (),
        StateError,
    >)
        requires
            old(self).wf(),
        ensures
            final(self).wf(),
            r is Ok <==> old(self).admits(metadata),
            match r {
                Ok(_) => final(self)@ == old(self)@.push(metadata) && final(self).latest() == Some(
                    metadata.epoch,
                ),
                Err(e) => final(self)@ == old(self)@ && final(self).latest() == old(self).latest()
                    && e == (StateError::InvalidBarrier { epoch: metadata.epoch }),
            },
    {
        let stale = match self.latest {
            Some(epoch) => epoch >= metadata.epoch,
            None => false,
        };
        if metadata.min_epoch > metadata.epoch || stale {
            return Err(StateError::InvalidBarrier { epoch: metadata.epoch });
        }
        proof {
            let before = self.completed@;
            let after = before.push(metadata);
            assert forall|i: int, j: int| 0 <= i < j < after.len() implies (#[trigger] after[i]).epoch
                < (#[trigger] after[j]).epoch by {
                if j < before.len() {
                    assert(before[i].epoch < before[j].epoch);
                } else {
                    assert(before[i].epoch <= self.latest->0);
                }
            }
        }
        self.latest = Some(metadata.epoch);
        self.completed.push(metadata);
        Ok(())
    }

    /// The newest completed checkpoint; none if nothing was completed.
    pub fn load_latest_checkpoint_metadata(&self) -> (r: Option<&CheckpointMetadata>)
        ensures
            match r {
                Some(m) => self@.len() > 0 && *m == self@.last(),
                None => self@.len() == 0,
            },
    {
        let n = self.completed.len();
        if n == 0 {
            None
        } else {
            Some(&self.completed[n - 1])
        }
    }

    /// The completed checkpoint of an epoch; none if that epoch was never
    /// completed or was cleaned up.
    pub fn load_checkpoint_metadata(&self, epoch: u32) -> (r: Option<&CheckpointMetadata>)
        ensures
            match r {
                Some(m) => m.epoch == epoch && self@.contains(*m),
                None => forall|i: int| 0 <= i < self@.len() ==> (#[trigger] self@[i]).epoch != epoch,
            },
    {
        let mut i: usize = 0;
        while i < self.completed.len()
            invariant
                i <= self.completed.len(),
                forall|j: int| 0 <= j < i ==> (#[trigger] self.completed[j]).epoch != epoch,
            decreases self.completed.len() - i,
        {
            if self.completed[i].epoch == epoch {
                assert(self@[i as int] == self.completed[i as int]);
                return Some(&self.completed[i]);
            }
            i += 1;
        }
        None
    }

    /// Deletes the checkpoints whose epoch has fallen below `new_min_epoch`
    /// and keeps all others: the kept checkpoints are the newest ones.
    pub fn cleanup_checkpoint(&mut self, new_min_epoch: u32)
        requires
            old(self).wf(),
        ensures
            final(self).wf(),
            final(self).latest() == old(self).latest(),
            final(self)@.len() <= old(self)@.len(),
            final(self)@ == old(self)@.skip(old(self)@.len() - final(self)@.len()),
            forall|i: int| 0 <= i < final(self)@.len() ==> (#[trigger] final(self)@[i]).epoch
                >= new_min_epoch,
            forall|i: int|
                0 <= i < old(self)@.len() - final(self)@.len() ==> (#[trigger] old(self)@[i]).epoch
                    < new_min_epoch,
    {
        let ghost before = self.completed@;
        let mut n: usize = 0;
        while n < self.completed.len() && self.completed[n].epoch < new_min_epoch
            invariant
                n <= self.completed.len(),
                self.completed@ == before,
                forall|i: int| 0 <= i < n ==> (#[trigger] before[i]).epoch < new_min_epoch,
            decreases self.completed.len() - n,
        {
            n += 1;
        }
        let kept = self.completed.split_off(n);
        self.completed = kept;
        proof {
            let after = self.completed@;
            assert(after =~= before.skip(n as int));
            assert forall|i: int| 0 <= i < after.len() implies (#[trigger] after[i]).epoch
                >= new_min_epoch by {
                assert(after[i] == before[i + n]);
                if i > 0 {
                    assert(before[n as int].epoch < before[i + n].epoch);
                }
            }
            assert forall|i: int, j: int| 0 <= i < j < after.len() implies (#[trigger] after[i]).epoch
                < (#[trigger] after[j]).epoch by {
                assert(before[i + n].epoch < before[j + n].epoch);
            }
            assert forall|i: int| 0 <= i < after.len() implies (#[trigger] after[i]).well_formed() by {
                assert(before[i + n].well_formed());
            }
        }
    }
}

} // verus!
