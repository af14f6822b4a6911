//! Results shared by the three ledgers.

use vstd::prelude::*;

verus! {

/// Why a ledger refused to place a hold.
#[derive(Clone, Copy, Debug, PartialEq, Eq, Structural)]
pub enum LedgerError {
    /// The requested amount is not strictly below what is available.
    InsufficientResource { available: u64 },
    /// The freshly minted reservation id is already on record.
    DuplicateReservation,
    /// No delivery date could be computed.
    DateUnavailable,
}

/// What a commit, confirm, rollback or cancel did.
#[derive(Clone, Copy, Debug, PartialEq, Eq, Structural)]
pub enum Settlement {
    /// The held reservation was settled now.
    Applied,
    /// The reservation had already been settled: nothing changed.
    AlreadySettled,
    /// No reservation has that id: nothing changed.
    NotRegistered,
}

} // verus!
