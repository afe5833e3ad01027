//! Locations of transactions and outputs in the canonical block sequence,
//! together with key encodings whose numeric order equals chain order.

use vstd::prelude::*;

verus! {

/// Where a transaction sits in the canonical block sequence: block height,
/// then the transaction's index within its block.
#[derive(Clone, Copy, PartialEq, Eq, Structural, Debug)]
pub struct TransactionLocation {
    pub height: u32,
    pub index: u16,
}

/// Where a transaction output sits in the canonical block sequence: block
/// height, the creating transaction's index within its block, then the
/// output's index within that transaction.
#[derive(Clone, Copy, PartialEq, Eq, Structural, Debug)]
pub struct OutputLocation {
    pub height: u32,
    pub tx_index: u16,
    pub output_index: u16,
}

/// Chain order on transaction locations: height first, then index in block.
pub open spec fn tx_loc_before(a: TransactionLocation, b: TransactionLocation) -> bool {
    a.height < b.height || (a.height == b.height && a.index < b.index)
}

/// Chain order on output locations: height, then transaction index, then
/// output index.
pub open spec fn out_loc_before(a: OutputLocation, b: OutputLocation) -> bool {
    a.height < b.height
        || (a.height == b.height && a.tx_index < b.tx_index)
        || (a.height == b.height && a.tx_index == b.tx_index && a.output_index < b.output_index)
}

impl TransactionLocation {
    /// The location packed into one integer key, high-order fields first.
    pub open spec fn spec_key(self) -> u64 {
        ((self.height as int) * 0x1_0000 + (self.index as int)) as u64
    }

    /// Packs the location into an ordered map key.
    pub fn key(self) -> (r: u64)
        ensures
            r == self.spec_key(),
    {
        (self.height as u64) * 0x1_0000 + (self.index as u64)
    }
}

impl OutputLocation {
    /// The location packed into one integer key, high-order fields first.
    pub open spec fn spec_key(self) -> u64 {
        ((self.height as int) * 0x1_0000_0000 + (self.tx_index as int) * 0x1_0000 + (
        self.output_index as int)) as u64
    }

    /// Packs the location into an ordered map key.
    pub fn key(self) -> (r: u64)
        ensures
            r == self.spec_key(),
    {
        (self.height as u64) * 0x1_0000_0000 + (self.tx_index as u64) * 0x1_0000 + (
        self.output_index as u64)
    }
}

/// The location of the transaction that created the output at `location`.
pub fn transaction_location(location: OutputLocation) -> (r: TransactionLocation)
    ensures
        r.height == location.height,
        r.index == location.tx_index,
{
    TransactionLocation { height: location.height, index: location.tx_index }
}

/// Numeric order on packed transaction-location keys is exactly chain order,
/// and the packing is injective.
pub proof fn lemma_tx_key_order(a: TransactionLocation, b: TransactionLocation)
    ensures
        a.spec_key() < b.spec_key() <==> tx_loc_before(a, b),
        a.spec_key() == b.spec_key() <==> a == b,
{
    let av = (a.height as int) * 0x1_0000 + (a.index as int);
    let bv = (b.height as int) * 0x1_0000 + (b.index as int);
    assert(0 <= av < 0x1_0000_0000_0000_0000);
    assert(0 <= bv < 0x1_0000_0000_0000_0000);
    assert(av < bv <==> tx_loc_before(a, b));
    assert(av == bv <==> a.height == b.height && a.index == b.index);
}

/// Numeric order on packed output-location keys is exactly chain order, and
/// the packing is injective.
pub proof fn lemma_out_key_order(a: OutputLocation, b: OutputLocation)
    ensures
        a.spec_key() < b.spec_key() <==> out_loc_before(a, b),
        a.spec_key() == b.spec_key() <==> a == b,
{
    let av = (a.height as int) * 0x1_0000_0000 + (a.tx_index as int) * 0x1_0000 + (
    a.output_index as int);
    let bv = (b.height as int) * 0x1_0000_0000 + (b.tx_index as int) * 0x1_0000 + (
    b.output_index as int);
    assert(0 <= av < 0x1_0000_0000_0000_0000);
    assert(0 <= bv < 0x1_0000_0000_0000_0000);
    assert(av < bv <==> out_loc_before(a, b));
    assert(av == bv <==> a.height == b.height && a.tx_index == b.tx_index && a.output_index
        == b.output_index);
}

} // verus!
