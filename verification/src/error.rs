use vstd::prelude::*;

verus! {

/// The kind of container a table id is bound to.
#[derive(Clone, Copy, Debug, PartialEq, Eq, Structural)]
pub enum TableType {
    Global,
    TimeKeyMap,
    KeyTimeMultiMap,
    Keyed,
}

/// Identifies the key and value types a caller stores in a table.
///
/// The store never interprets keys or values, so the pair of type ids is the
/// only thing that tells two typed uses of the same table id apart.
#[derive(Clone, Copy, Debug, PartialEq, Eq, Structural)]
pub struct TypeTag {
    pub key: u64,
    pub value: u64,
}

/// Failures reported by the state layer.
#[derive(Clone, Copy, Debug, PartialEq, Eq, Structural)]
pub enum StateError {
    /// A persisted operation tag was neither `Insert` nor `DeleteKey`.
    UnknownOperation { tag: u8 },
    /// A table id was requested with a kind or type pair other than the one
    /// its resident cache was created with.
    TypeMismatch { table: char },
    /// A time-stamped table was requested during a restore without having
    /// been declared.
    UnknownTable { table: char },
    /// A barrier carried an epoch that does not exceed the last one flushed,
    /// or a minimum epoch above its own epoch.
    InvalidBarrier { epoch: u32 },
    /// A step of the checkpoint cycle was taken out of order.
    OutOfOrder,
}

} // verus!
