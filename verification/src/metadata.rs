use crate::descriptor::TableDescriptor;
use vstd::prelude::*;

verus! {

/// Identifies one parallel task of an operator and the key range it owns.
#[derive(Debug)]
pub struct TaskInfo {
    pub job_id: String,
    pub operator_name: String,
    pub operator_id: String,
    pub task_index: usize,
    pub parallelism: usize,
    pub key_range_start: u64,
    pub key_range_end: u64,
}

impl TaskInfo {
    /// A single task that owns the full key range.
    pub fn for_test(job_id: &str, operator_id: &str) -> (info: TaskInfo)
        ensures
            info.job_id@ == job_id@,
            info.operator_name@ == "op"@,
            info.operator_id@ == operator_id@,
            info.task_index == 0,
            info.parallelism == 1,
            info.key_range_start == 0,
            info.key_range_end == u64::MAX,
    {
        TaskInfo {
            job_id: job_id.to_owned(),
            operator_name: "op".to_owned(),
            operator_id: operator_id.to_owned(),
            task_index: 0,
            parallelism: 1,
            key_range_start: 0,
            key_range_end: u64::MAX,
        }
    }

    /// An owned copy of the identity.
    pub fn duplicate(&self) -> (info: TaskInfo)
        ensures
            info == *self,
    {
        TaskInfo {
            job_id: self.job_id.clone(),
            operator_name: self.operator_name.clone(),
            operator_id: self.operator_id.clone(),
            task_index: self.task_index,
            parallelism: self.parallelism,
            key_range_start: self.key_range_start,
            key_range_end: self.key_range_end,
        }
    }
}

/// The control signal that marks a checkpoint boundary.
#[derive(Clone, Copy, Debug, PartialEq, Eq, Structural)]
pub struct CheckpointBarrier {
    pub epoch: u32,
    /// The oldest epoch a restore may still need.
    pub min_epoch: u32,
    pub timestamp: u64,
    pub then_stop: bool,
}

impl CheckpointBarrier {
    /// A barrier never asks to keep epochs newer than its own.
    pub open spec fn well_formed(&self) -> bool {
        self.min_epoch <= self.epoch
    }
}

/// The durable record of one completed checkpoint of a job.
#[derive(Debug)]
pub struct CheckpointMetadata {
    pub job_id: String,
    pub epoch: u32,
    pub min_epoch: u32,
    pub start_time: u64,
    pub finish_time: u64,
    pub operator_ids: Vec<String>,
}

impl CheckpointMetadata {
    /// The oldest epoch still required never exceeds the epoch itself.
    pub open spec fn well_formed(&self) -> bool {
        self.min_epoch <= self.epoch
    }
}

/// The durable record of one operator's part in a checkpoint.
#[derive(Debug)]
pub struct OperatorCheckpointMetadata {
    pub job_id: String,
    pub operator_id: String,
    pub epoch: u32,
    pub start_time: u64,
    pub finish_time: u64,
    pub min_watermark: Option<u64>,
    pub max_watermark: Option<u64>,
    pub has_state: bool,
    pub tables: Vec<TableDescriptor>,
    /// Handles of the storage segments this checkpoint consists of.
    pub backend_data: Vec<u64>,
    pub bytes: u64,
}

/// The outcome of compacting a range of epochs: segments to forget and the
/// consolidated segments that take their place.
#[derive(Debug)]
pub struct CompactionResult {
    pub epoch: u32,
    pub backend_data_to_drop: Vec<u64>,
    pub backend_data_to_load: Vec<u64>,
}

} // verus!
