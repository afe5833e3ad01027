//! The two error tiers of the update protocol.

use vstd::prelude::*;

verus! {

/// Recoverable, data-dependent failures: the submitted block's values violate
/// an arithmetic domain constraint, and the whole block is rejected as if it
/// had never been submitted.
#[derive(Clone, Copy, PartialEq, Eq, Structural, Debug)]
pub enum ValidateContextError {
    /// A balance delta would leave the valid amount range.
    AddressBalanceOutOfRange,
}

/// Fatal structural faults: apply and revert have desynchronized from the
/// actual chain history. A caller must treat any of these as an instruction
/// to abort the process, never as a recoverable condition.
#[derive(Clone, Copy, PartialEq, Eq, Structural, Debug)]
pub enum StructuralFault {
    /// A creation update targeted an output location already present.
    DuplicateCreatedUtxo,
    /// A spend update targeted an output location already spent.
    DuplicateSpentUtxo,
    /// A revert expected a created output that is not present.
    MissingCreatedUtxo,
    /// A revert expected a spent output location that is not present.
    MissingSpentUtxo,
    /// The transaction-hash multiset cannot count an element any higher; a
    /// chain long enough to reach this does not fit in memory.
    TxIdCountSaturated,
    /// A revert expected a transaction hash with multiplicity at least one.
    MissingTxId,
    /// Undoing a balance delta would leave the valid amount range.
    BalanceOutOfRangeOnRevert,
}

/// What an apply can report: a recoverable validation error, or a fatal
/// structural fault.
#[derive(Clone, Copy, PartialEq, Eq, Structural, Debug)]
pub enum ApplyError {
    Validation(ValidateContextError),
    Fault(StructuralFault),
}

/// Why a submitted block was not committed.
#[derive(Clone, Copy, PartialEq, Eq, Structural, Debug)]
pub enum CommitError {
    /// Neither a live chain nor the finalized tip holds the block's parent.
    UnknownParent,
    /// The block's height does not follow its parent's, or does not fit in
    /// the height word.
    WrongHeight,
    /// The update protocol rejected the block.
    Apply(ApplyError),
}

} // verus!
