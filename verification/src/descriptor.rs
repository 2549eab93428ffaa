use crate::error::TableType;
use vstd::prelude::*;
use vstd::string::*;

verus! {

/// What a restore may read back from a table.
#[derive(Clone, Copy, Debug, PartialEq, Eq, Structural)]
pub enum TableDeleteBehavior {
    /// Every persisted entry is read back.
    NoDeletes,
    /// Entries that expired before the watermark are never read back.
    NoReadsBeforeWatermark,
}

/// What a checkpoint writes out for a table.
#[derive(Clone, Copy, Debug, PartialEq, Eq, Structural)]
pub enum TableWriteBehavior {
    /// Every pending change is written.
    DefaultWrites,
    /// Changes timestamped before the watermark are not written.
    NoWritesBeforeWatermark,
}

/// The durable description of one table of an operator.
#[derive(Debug)]
pub struct TableDescriptor {
    pub name: String,
    pub description: String,
    pub table_type: TableType,
    pub delete_behavior: TableDeleteBehavior,
    pub write_behavior: TableWriteBehavior,
    pub retention_micros: u64,
}

impl TableDescriptor {
    /// The table id: the first character of the name, if it has one.
    pub open spec fn id_of(&self) -> Option<char> {
        if self.name@.len() > 0 {
            Some(self.name@[0])
        } else {
            None
        }
    }

    /// The table id of this descriptor.
    pub fn table_id(&self) -> (id: Option<char>)
        ensures
            id == self.id_of(),
    {
        let name = self.name.as_str();
        if name.is_empty() {
            None
        } else {
            Some(name.get_char(0))
        }
    }

    /// An owned copy of this descriptor.
    pub fn duplicate(&self) -> (d: TableDescriptor)
        ensures
            d == *self,
    {
        TableDescriptor {
            name: self.name.clone(),
            description: self.description.clone(),
            table_type: self.table_type,
            delete_behavior: self.delete_behavior,
            write_behavior: self.write_behavior,
            retention_micros: self.retention_micros,
        }
    }

    /// The oldest event time a restore at `watermark` still reads: the
    /// watermark less the retention, for a table that hides expired entries,
    /// and the beginning of time otherwise.
    pub open spec fn min_valid_time_of(&self, watermark: Option<u64>) -> u64 {
        match (self.delete_behavior, watermark) {
            (TableDeleteBehavior::NoReadsBeforeWatermark, Some(w)) => if w
                >= self.retention_micros {
                (w - self.retention_micros) as u64
            } else {
                0
            },
            _ => 0,
        }
    }

    /// The oldest event time a restore at `watermark` still reads.
    pub fn min_valid_time(&self, watermark: Option<u64>) -> (t: u64)
        ensures
            t == self.min_valid_time_of(watermark),
    {
        match (self.delete_behavior, watermark) {
            (TableDeleteBehavior::NoReadsBeforeWatermark, Some(w)) => {
                if w >= self.retention_micros {
                    w - self.retention_micros
                } else {
                    0
                }
            },
            _ => 0,
        }
    }

    /// Whether a checkpoint at `watermark` writes a change timestamped `timestamp`.
    pub open spec fn writes_of(&self, timestamp: u64, watermark: Option<u64>) -> bool {
        match (self.write_behavior, watermark) {
            (TableWriteBehavior::NoWritesBeforeWatermark, Some(w)) => timestamp >= w,
            _ => true,
        }
    }

    /// Whether a checkpoint at `watermark` writes a change timestamped `timestamp`.
    pub fn writes(&self, timestamp: u64, watermark: Option<u64>) -> (r: bool)
        ensures
            r == self.writes_of(timestamp, watermark),
    {
        match (self.write_behavior, watermark) {
            (TableWriteBehavior::NoWritesBeforeWatermark, Some(w)) => timestamp >= w,
            _ => true,
        }
    }
}

/// Describes a global table: one keyed map shared by all subtasks, with no
/// retention and no watermark rules.
pub fn global_table(name: &str, description: &str) -> (d: TableDescriptor)
    ensures
        d.name@ == name@,
        d.description@ == description@,
        d.table_type == TableType::Global,
        d.delete_behavior == TableDeleteBehavior::NoDeletes,
        d.write_behavior == TableWriteBehavior::DefaultWrites,
        d.retention_micros == 0,
{
    TableDescriptor {
        name: name.to_owned(),
        description: description.to_owned(),
        table_type: TableType::Global,
        delete_behavior: TableDeleteBehavior::NoDeletes,
        write_behavior: TableWriteBehavior::DefaultWrites,
        retention_micros: 0,
    }
}

/// Describes a time-key map with the given watermark rules and retention.
pub fn timestamp_table(
    name: &str,
    description: &str,
    delete_behavior: TableDeleteBehavior,
    write_behavior: TableWriteBehavior,
    retention_micros: u64,
) -> (d: TableDescriptor)
    ensures
        d.name@ == name@,
        d.description@ == description@,
        d.table_type == TableType::TimeKeyMap,
        d.delete_behavior == delete_behavior,
        d.write_behavior == write_behavior,
        d.retention_micros == retention_micros,
{
    TableDescriptor {
        name: name.to_owned(),
        description: description.to_owned(),
        table_type: TableType::TimeKeyMap,
        delete_behavior,
        write_behavior,
        retention_micros,
    }
}

} // verus!
