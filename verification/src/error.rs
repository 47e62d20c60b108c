//! Error types shared by every addressable-heap capability.
use vstd::prelude::*;

verus! {

/// The reason an addressable heap rejected a handle.
#[derive(Clone, Copy, Debug, PartialEq, Eq)]
pub enum InvalidHandle {
    /// The handle was created by a different heap.
    ForeignHeap,
    /// The entry was removed or the heap was cleared.
    Stale,
}

/// An error returned when decreasing an entry's key.
#[derive(Clone, Copy, Debug, PartialEq, Eq)]
pub enum DecreaseKeyError {
    /// The handle was not valid for this heap.
    InvalidHandle(InvalidHandle),
    /// The proposed key has lower priority than the existing key.
    NotDecreased,
    /// The proposed key violates an implementation-specific key restriction.
    InvalidKey,
}

/// An error returned when increasing an entry's key in a double-ended
/// addressable heap.
#[derive(Clone, Copy, Debug, PartialEq, Eq)]
pub enum IncreaseKeyError {
    /// The handle was not valid for this heap.
    InvalidHandle(InvalidHandle),
    /// The proposed key has higher priority than the existing key.
    NotIncreased,
}

impl InvalidHandle {
    /// The description that [`Self::message`] gives of this error.
    pub open spec fn description(&self) -> Seq<char> {
        match self {
            InvalidHandle::ForeignHeap => "handle belongs to another heap"@,
            InvalidHandle::Stale => "handle no longer identifies a live entry"@,
        }
    }

    /// A human-readable description of the error.
    pub fn message(&self) -> (text: &'static str)
        ensures
            text@ == self.description(),
    {
        match self {
            InvalidHandle::ForeignHeap => "handle belongs to another heap",
            InvalidHandle::Stale => "handle no longer identifies a live entry",
        }
    }
}

impl DecreaseKeyError {
    /// The description that [`Self::message`] gives of this error.
    pub open spec fn description(&self) -> Seq<char> {
        match self {
            DecreaseKeyError::InvalidHandle(error) => error.description(),
            DecreaseKeyError::NotDecreased => "new key must not be greater than the old key"@,
            DecreaseKeyError::InvalidKey => "new key violates the heap's key restrictions"@,
        }
    }

    /// A human-readable description of the error.
    pub fn message(&self) -> (text: &'static str)
        ensures
            text@ == self.description(),
    {
        match self {
            DecreaseKeyError::InvalidHandle(error) => error.message(),
            DecreaseKeyError::NotDecreased => "new key must not be greater than the old key",
            DecreaseKeyError::InvalidKey => "new key violates the heap's key restrictions",
        }
    }
}

impl IncreaseKeyError {
    /// The description that [`Self::message`] gives of this error.
    pub open spec fn description(&self) -> Seq<char> {
        match self {
            IncreaseKeyError::InvalidHandle(error) => error.description(),
            IncreaseKeyError::NotIncreased => "new key must not be less than the old key"@,
        }
    }

    /// A human-readable description of the error.
    pub fn message(&self) -> (text: &'static str)
        ensures
            text@ == self.description(),
    {
        match self {
            IncreaseKeyError::InvalidHandle(error) => error.message(),
            IncreaseKeyError::NotIncreased => "new key must not be less than the old key",
        }
    }
}

} // verus!
