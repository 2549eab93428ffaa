use crate::bytes::copy_bytes;
use crate::error::StateError;
use vstd::prelude::*;

verus! {

/// How a persisted change affects the entry it names.
#[derive(Clone, Copy, Debug, PartialEq, Eq, Structural)]
pub enum DataOperation {
    /// Binds the key to the tuple's value.
    Insert,
    /// Removes the key's single entry.
    DeleteKey,
}

impl DataOperation {
    /// The wire tag of an operation: 0 for `Insert`, 1 for `DeleteKey`.
    pub open spec fn tag_of(self) -> u8 {
        match self {
            DataOperation::Insert => 0,
            DataOperation::DeleteKey => 1,
        }
    }

    /// The wire tag of this operation.
    pub fn tag(&self) -> (t: u8)
        ensures
            t == self.tag_of(),
    {
        match self {
            DataOperation::Insert => 0,
            DataOperation::DeleteKey => 1,
        }
    }

    /// The operation a valid wire tag stands for.
    pub fn from(op: u8) -> (r: DataOperation)
        requires
            op == 0 || op == 1,
        ensures
            r.tag_of() == op,
    {
        if op == 0 {
            DataOperation::Insert
        } else {
            DataOperation::DeleteKey
        }
    }

    /// Decodes a wire tag, rejecting every value other than 0 and 1.
    pub fn decode(op: u8) -> (r: Result<DataOperation, StateError>)
        ensures
            match r {
                Ok(o) => o.tag_of() == op,
                Err(e) => op > 1 && e == (StateError::UnknownOperation { tag: op }),
            },
    {
        if op <= 1 {
            Ok(DataOperation::from(op))
        } else {
            Err(StateError::UnknownOperation { tag: op })
        }
    }
}

/// One persisted change to a table: a delta, never a snapshot.
///
/// `value` is meaningful for `Insert` only; a `DeleteKey` tuple carries an
/// empty value.
#[derive(Debug)]
pub struct DataTuple {
    pub timestamp: u64,
    pub key: Vec<u8>,
    pub value: Vec<u8>,
    pub operation: DataOperation,
}

/// The mathematical content of a [`DataTuple`].
pub struct TupleView {
    pub timestamp: u64,
    pub key: Seq<u8>,
    pub value: Seq<u8>,
    pub operation: DataOperation,
}

impl View for DataTuple {
    type V = TupleView;

    open spec fn view(&self) -> TupleView {
        TupleView {
            timestamp: self.timestamp,
            key: self.key@,
            value: self.value@,
            operation: self.operation,
        }
    }
}

impl DataTuple {
    /// The tuple that binds `key` to `value` at `timestamp`.
    pub fn insert(timestamp: u64, key: Vec<u8>, value: Vec<u8>) -> (t: DataTuple)
        ensures
            t@ == insert_tuple(timestamp, key@, value@),
    {
        DataTuple { timestamp, key, value, operation: DataOperation::Insert }
    }

    /// The tuple that removes `key` at `timestamp`.
    pub fn delete_key(timestamp: u64, key: Vec<u8>) -> (t: DataTuple)
        ensures
            t@ == delete_tuple(timestamp, key@),
    {
        DataTuple { timestamp, key, value: Vec::new(), operation: DataOperation::DeleteKey }
    }

    /// An owned copy of this tuple.
    pub fn duplicate(&self) -> (t: DataTuple)
        ensures
            t@ == self@,
    {
        DataTuple {
            timestamp: self.timestamp,
            key: copy_bytes(&self.key),
            value: copy_bytes(&self.value),
            operation: self.operation,
        }
    }
}

/// The content of the tuple that binds `key` to `value` at `timestamp`.
pub open spec fn insert_tuple(timestamp: u64, key: Seq<u8>, value: Seq<u8>) -> TupleView {
    TupleView { timestamp, key, value, operation: DataOperation::Insert }
}

/// The content of the tuple that removes `key` at `timestamp`.
pub open spec fn delete_tuple(timestamp: u64, key: Seq<u8>) -> TupleView {
    TupleView { timestamp, key, value: Seq::empty(), operation: DataOperation::DeleteKey }
}

/// The contents of a log of tuples, in order.
pub open spec fn log_view(log: Seq<DataTuple>) -> Seq<TupleView> {
    log.map_values(|t: DataTuple| t@)
}

/// An owned copy of a log.
pub fn copy_log(log: &Vec<DataTuple>) -> (r: Vec<DataTuple>)
    ensures
        log_view(r@) == log_view(log@),
{
    let mut r: Vec<DataTuple> = Vec::with_capacity(log.len());
    let mut i: usize = 0;
    while i < log.len()
        invariant
            i <= log.len(),
            r.len() == i,
            forall|j: int| 0 <= j < i ==> r[j]@ == log[j]@,
        decreases log.len() - i,
    {
        r.push(log[i].duplicate());
        i += 1;
    }
    assert(log_view(r@) =~= log_view(log@));
    r
}

} // verus!
