//! Handles and meld errors shared by the addressable tree heaps.
use vstd::prelude::*;

verus! {

/// An opaque handle for an entry in an addressable tree heap.
///
/// A handle names the storage domain that issued it, a slot in that domain,
/// and the slot's generation when the entry was inserted.
#[derive(Clone, Copy, Debug, PartialEq, Eq, Hash)]
pub struct TreeHandle {
    pub(crate) domain: u64,
    pub(crate) slot: usize,
    pub(crate) generation: u64,
}

impl TreeHandle {
    /// The storage domain that issued the handle.
    pub closed spec fn issuer(self) -> u64 {
        self.domain
    }
}

/// Within the crate, a handle's issuer is its domain field.
pub(crate) broadcast proof fn lemma_issuer(handle: TreeHandle)
    ensures
        #[trigger] handle.issuer() == handle.domain,
{
}

/// The reason a meld was refused.
#[derive(Clone, Copy, Debug, PartialEq, Eq)]
pub enum MeldError {
    /// The receiving heap was previously used as a meld donor.
    ReceiverConsumed,
    /// The donor heap was previously used as a meld donor.
    DonorConsumed,
    /// The two heaps issue handles from a common storage domain, so their
    /// handles could not be told apart after a meld.
    DomainClash,
}

impl MeldError {
    /// The description that [`Self::message`] gives of this error.
    pub open spec fn description(&self) -> Seq<char> {
        match self {
            MeldError::ReceiverConsumed => "a meld donor cannot be reused"@,
            MeldError::DonorConsumed => "the donor heap was already consumed"@,
            MeldError::DomainClash => "the heaps issue handles from a common storage domain"@,
        }
    }

    /// A human-readable description of the error.
    pub fn message(&self) -> (text: &'static str)
        ensures
            text@ == self.description(),
    {
        match self {
            MeldError::ReceiverConsumed => "a meld donor cannot be reused",
            MeldError::DonorConsumed => "the donor heap was already consumed",
            MeldError::DomainClash => "the heaps issue handles from a common storage domain",
        }
    }
}

} // verus!
