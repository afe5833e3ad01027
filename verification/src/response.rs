//! The responses the state core gives to the rest of the node.

use vstd::prelude::*;
use crate::chain::Block;
use crate::location::OutputLocation;
use crate::transfers::Output;
use crate::chain::AddressedUpdate;

verus! {

/// A transaction reduced to what the state core serves of it: its hash and
/// its addressed update events in block order.
#[derive(PartialEq, Eq, Debug)]
pub struct Transaction {
    pub hash: u64,
    pub updates: Vec<AddressedUpdate>,
}

/// One unspent transparent output together with its location.
#[derive(Clone, Copy, PartialEq, Eq, Structural, Debug)]
pub struct Utxo {
    pub output: Output,
    pub location: OutputLocation,
}

/// A block header identity with the number of transactions the block holds.
#[derive(Clone, Copy, PartialEq, Eq, Structural, Debug)]
pub struct CountedHeader {
    pub hash: u64,
    pub height: u32,
    pub transaction_count: u32,
}

/// A response to a state request.
#[derive(PartialEq, Eq, Debug)]
pub enum Response {
    /// A block was accepted into the non-finalized state.
    Committed(u64),
    /// The confirmation depth of a referenced block, or none if unknown.
    Depth(Option<u32>),
    /// The current best chain tip, as height and hash.
    Tip(Option<(u32, u64)>),
    /// A sparse block locator for sync negotiation.
    BlockLocator(Vec<u64>),
    /// A transaction lookup result.
    Transaction(Option<Transaction>),
    /// A block lookup result.
    Block(Option<Block>),
    /// A specific unspent output.
    Utxo(Utxo),
    /// A block-hash range query result.
    BlockHashes(Vec<u64>),
    /// A block-header range query result.
    BlockHeaders(Vec<CountedHeader>),
}

/// A response to a read-only state request.
#[derive(PartialEq, Eq, Debug)]
pub enum ReadResponse {
    /// A block lookup result.
    Block(Option<Block>),
    /// A transaction lookup result, with the height it was found at.
    Transaction(Option<(Transaction, u32)>),
    /// Transaction ids touching an address, in the order they appear in
    /// blocks.
    TransactionIds(Vec<u64>),
}

} // verus!
