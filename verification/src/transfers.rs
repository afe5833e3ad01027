//! The per-address transfer index for one candidate chain, and the two-sided
//! update protocol (apply at the tip, revert at the tip or the root) that
//! keeps it synchronized with the chain's block sequence.

use vstd::prelude::*;
use vstd::multiset::Multiset;
use crate::amount::{amount_in_range, Amount};
use crate::errors::{ApplyError, StructuralFault, ValidateContextError};
use crate::location::{OutputLocation, TransactionLocation};
use crate::msets::{
    mset_clone, mset_count, mset_distinct, mset_insert, mset_is_empty, mset_new, mset_remove,
    tx_multiset,
};
use crate::omap::OrderedMap;
use crate::oset::OrderedSet;

verus! {

/// A transparent output: what the index reads of it is its value.
#[derive(Clone, Copy, PartialEq, Eq, Structural, Debug)]
pub struct Output {
    pub value: Amount,
}

/// A newly created output sent to the address.
#[derive(Clone, Copy, PartialEq, Eq, Structural, Debug)]
pub struct CreatedUtxoUpdate {
    /// The hash of the transaction that created the output.
    pub creating_tx_hash: u64,
    /// Where the output sits in the chain.
    pub location: OutputLocation,
    /// The output itself.
    pub output: Output,
}

/// A spend, by one of the chain's transactions, of an output the address owns.
#[derive(Clone, Copy, PartialEq, Eq, Structural, Debug)]
pub struct SpentUtxoUpdate {
    /// The hash of the transaction whose input spends the output.
    pub spending_tx_hash: u64,
    /// Where the spent output sits in the chain.
    pub spent_location: OutputLocation,
    /// The output being spent.
    pub spent_output: Output,
}

/// One update event of the transfer index.
#[derive(Clone, Copy, PartialEq, Eq, Structural, Debug)]
pub enum TransferUpdate {
    Creation(CreatedUtxoUpdate),
    Spend(SpentUtxoUpdate),
}

/// Whether a revert undoes the newest block still in memory (a losing fork is
/// being unwound) or the oldest (the root is being promoted into finalized
/// storage). The tag changes no field-level arithmetic; it tells the caller
/// which external action follows.
#[derive(Clone, Copy, PartialEq, Eq, Structural, Debug)]
pub enum RevertPosition {
    Tip,
    Root,
}

impl TransferUpdate {
    /// Output values are non-negative amounts in the valid domain.
    pub open spec fn wf(self) -> bool {
        match self {
            TransferUpdate::Creation(c) => c.output.value.wf() && c.output.value.spec_value()
                >= 0,
            TransferUpdate::Spend(s) => s.spent_output.value.wf()
                && s.spent_output.value.spec_value() >= 0,
        }
    }

    /// The signed balance delta the update applies.
    pub open spec fn delta(self) -> int {
        match self {
            TransferUpdate::Creation(c) => c.output.value.spec_value(),
            TransferUpdate::Spend(s) => -s.spent_output.value.spec_value(),
        }
    }

    /// The transaction hash the update records.
    pub open spec fn tx_hash(self) -> u64 {
        match self {
            TransferUpdate::Creation(c) => c.creating_tx_hash,
            TransferUpdate::Spend(s) => s.spending_tx_hash,
        }
    }
}

/// The mathematical state of one address's transfer index.
#[verifier::ext_equal]
pub struct TransfersView {
    /// Net value moved to or from the address in this chain's history.
    pub balance: int,
    /// Hashes of the transactions that touched the address, with multiplicity
    /// one per update event.
    pub tx_ids: Multiset<u64>,
    /// Outputs sent to the address, keyed by packed location in chain order.
    pub created_utxos: Map<u64, Output>,
    /// Packed locations of outputs spent by this chain's transactions.
    pub spent_utxos: Set<u64>,
}

impl TransfersView {
    /// The state of an address that does not appear in the index.
    pub open spec fn empty() -> TransfersView {
        TransfersView {
            balance: 0,
            tx_ids: Multiset::empty(),
            created_utxos: Map::empty(),
            spent_utxos: Set::empty(),
        }
    }

    /// All fields empty and the balance zero: such an entry is pruned.
    pub open spec fn is_empty(self) -> bool {
        self.balance == 0 && self.tx_ids =~= Multiset::empty() && self.created_utxos
            =~= Map::empty() && self.spent_utxos =~= Set::empty()
    }
}

/// Applying a creation: add the value, record the output, record the hash.
pub open spec fn tv_apply_creation(t: TransfersView, c: CreatedUtxoUpdate) -> TransfersView {
    TransfersView {
        balance: t.balance + c.output.value.spec_value(),
        tx_ids: t.tx_ids.insert(c.creating_tx_hash),
        created_utxos: t.created_utxos.insert(c.location.spec_key(), c.output),
        spent_utxos: t.spent_utxos,
    }
}

/// Applying a spend: subtract the value, record the spent location and hash.
pub open spec fn tv_apply_spend(t: TransfersView, s: SpentUtxoUpdate) -> TransfersView {
    TransfersView {
        balance: t.balance - s.spent_output.value.spec_value(),
        tx_ids: t.tx_ids.insert(s.spending_tx_hash),
        created_utxos: t.created_utxos,
        spent_utxos: t.spent_utxos.insert(s.spent_location.spec_key()),
    }
}

/// What applying an update yields when it is allowed.
pub open spec fn tv_apply(t: TransfersView, u: TransferUpdate) -> TransfersView {
    match u {
        TransferUpdate::Creation(c) => tv_apply_creation(t, c),
        TransferUpdate::Spend(s) => tv_apply_spend(t, s),
    }
}

/// When an apply succeeds: no duplicate structure, a countable hash, and a
/// balance that stays in the valid range.
pub open spec fn can_apply(t: TransfersView, u: TransferUpdate) -> bool {
    match u {
        TransferUpdate::Creation(c) => !t.created_utxos.dom().contains(c.location.spec_key())
            && t.tx_ids.count(c.creating_tx_hash) < usize::MAX && amount_in_range(
            t.balance + c.output.value.spec_value(),
        ),
        TransferUpdate::Spend(s) => !t.spent_utxos.contains(s.spent_location.spec_key())
            && t.tx_ids.count(s.spending_tx_hash) < usize::MAX && amount_in_range(
            t.balance - s.spent_output.value.spec_value(),
        ),
    }
}

/// The exact error a failing apply reports, checks made structural-first.
pub open spec fn apply_error(t: TransfersView, u: TransferUpdate) -> ApplyError {
    match u {
        TransferUpdate::Creation(c) => if t.created_utxos.dom().contains(c.location.spec_key()) {
            ApplyError::Fault(StructuralFault::DuplicateCreatedUtxo)
        } else if t.tx_ids.count(c.creating_tx_hash) >= usize::MAX {
            ApplyError::Fault(StructuralFault::TxIdCountSaturated)
        } else {
            ApplyError::Validation(ValidateContextError::AddressBalanceOutOfRange)
        },
        TransferUpdate::Spend(s) => if t.spent_utxos.contains(s.spent_location.spec_key()) {
            ApplyError::Fault(StructuralFault::DuplicateSpentUtxo)
        } else if t.tx_ids.count(s.spending_tx_hash) >= usize::MAX {
            ApplyError::Fault(StructuralFault::TxIdCountSaturated)
        } else {
            ApplyError::Validation(ValidateContextError::AddressBalanceOutOfRange)
        },
    }
}

/// Undoing a creation: subtract the value, drop the output and one hash.
pub open spec fn tv_revert_creation(t: TransfersView, c: CreatedUtxoUpdate) -> TransfersView {
    TransfersView {
        balance: t.balance - c.output.value.spec_value(),
        tx_ids: t.tx_ids.remove(c.creating_tx_hash),
        created_utxos: t.created_utxos.remove(c.location.spec_key()),
        spent_utxos: t.spent_utxos,
    }
}

/// Undoing a spend: add the value back, drop the spent location and one hash.
pub open spec fn tv_revert_spend(t: TransfersView, s: SpentUtxoUpdate) -> TransfersView {
    TransfersView {
        balance: t.balance + s.spent_output.value.spec_value(),
        tx_ids: t.tx_ids.remove(s.spending_tx_hash),
        created_utxos: t.created_utxos,
        spent_utxos: t.spent_utxos.remove(s.spent_location.spec_key()),
    }
}

/// What reverting an update yields when it is allowed.
pub open spec fn tv_revert(t: TransfersView, u: TransferUpdate) -> TransfersView {
    match u {
        TransferUpdate::Creation(c) => tv_revert_creation(t, c),
        TransferUpdate::Spend(s) => tv_revert_spend(t, s),
    }
}

/// When a revert succeeds: every removal finds what it expects, and the
/// balance stays in the valid range.
pub open spec fn can_revert(t: TransfersView, u: TransferUpdate) -> bool {
    match u {
        TransferUpdate::Creation(c) => t.created_utxos.dom().contains(c.location.spec_key())
            && t.tx_ids.count(c.creating_tx_hash) > 0 && amount_in_range(
            t.balance - c.output.value.spec_value(),
        ),
        TransferUpdate::Spend(s) => t.spent_utxos.contains(s.spent_location.spec_key())
            && t.tx_ids.count(s.spending_tx_hash) > 0 && amount_in_range(
            t.balance + s.spent_output.value.spec_value(),
        ),
    }
}

/// The exact fault a failing revert reports, presence checks first.
pub open spec fn revert_error(t: TransfersView, u: TransferUpdate) -> StructuralFault {
    match u {
        TransferUpdate::Creation(c) => if !t.created_utxos.dom().contains(c.location.spec_key()) {
            StructuralFault::MissingCreatedUtxo
        } else if t.tx_ids.count(c.creating_tx_hash) == 0 {
            StructuralFault::MissingTxId
        } else {
            StructuralFault::BalanceOutOfRangeOnRevert
        },
        TransferUpdate::Spend(s) => if !t.spent_utxos.contains(s.spent_location.spec_key()) {
            StructuralFault::MissingSpentUtxo
        } else if t.tx_ids.count(s.spending_tx_hash) == 0 {
            StructuralFault::MissingTxId
        } else {
            StructuralFault::BalanceOutOfRangeOnRevert
        },
    }
}

/// The balance, transactions, created outputs and spent outputs of one
/// address, confined to one candidate chain's non-finalized history.
#[derive(PartialEq, Eq, Debug)]
pub struct TransparentTransfers {
    balance: Amount,
    tx_ids: mset::MultiSet<u64>,
    created_utxos: OrderedMap<Output>,
    spent_utxos: OrderedSet,
}

impl View for TransparentTransfers {
    type V = TransfersView;

    closed spec fn view(&self) -> TransfersView {
        TransfersView {
            balance: self.balance.spec_value(),
            tx_ids: tx_multiset(self.tx_ids),
            created_utxos: self.created_utxos@,
            spent_utxos: self.spent_utxos@,
        }
    }
}

impl TransparentTransfers {
    /// The representation invariant: the balance lies in the amount domain
    /// and both location collections are sorted by strictly increasing key.
    pub closed spec fn wf(self) -> bool {
        self.balance.wf() && self.created_utxos.wf() && self.spent_utxos.wf()
    }

    /// The created-output keys, in ascending (chain) order.
    pub closed spec fn created_key_seq(self) -> Seq<u64> {
        self.created_utxos.key_seq()
    }

    /// The spent-output keys, in ascending (chain) order.
    pub closed spec fn spent_key_seq(self) -> Seq<u64> {
        self.spent_utxos.key_seq()
    }

    /// A well-formed index holds a balance in the valid amount range.
    pub proof fn lemma_wf_balance(self)
        requires
            self.wf(),
        ensures
            amount_in_range(self@.balance),
    {
    }

    /// The location collections hold exactly the view's keys, sorted by
    /// strictly increasing packed location.
    pub proof fn lemma_key_seqs(self)
        requires
            self.wf(),
        ensures
            forall|i: int, j: int|
                0 <= i < j < self.created_key_seq().len() ==> self.created_key_seq()[i]
                    < self.created_key_seq()[j],
            forall|i: int, j: int|
                0 <= i < j < self.spent_key_seq().len() ==> self.spent_key_seq()[i]
                    < self.spent_key_seq()[j],
            forall|k: u64| #[trigger] self@.created_utxos.dom().contains(k)
                <==> self.created_key_seq().contains(k),
            forall|k: u64| #[trigger] self@.spent_utxos.contains(k)
                <==> self.spent_key_seq().contains(k),
    {
        self.created_utxos.lemma_view();
        self.spent_utxos.lemma_view();
    }

    /// An index holding no transfers.
    pub fn new() -> (r: TransparentTransfers)
        ensures
            r.wf(),
            r@ == TransfersView::empty(),
    {
        let r = TransparentTransfers {
            balance: Amount::zero(),
            tx_ids: mset_new(),
            created_utxos: OrderedMap::new(),
            spent_utxos: OrderedSet::new(),
        };
        proof {
            assert(r@ =~= TransfersView::empty());
        }
        r
    }

    /// An exact copy; a chain fork clones each address entry whole, so that
    /// no two live forks ever share mutable index state.
    pub fn clone_transfers(&self) -> (r: TransparentTransfers)
        requires
            self.wf(),
        ensures
            r.wf(),
            r@ == self@,
            r.created_key_seq() == self.created_key_seq(),
            r.spent_key_seq() == self.spent_key_seq(),
    {
        let r = TransparentTransfers {
            balance: self.balance,
            tx_ids: mset_clone(&self.tx_ids),
            created_utxos: self.created_utxos.duplicate(),
            spent_utxos: self.spent_utxos.clone(),
        };
        proof {
            assert(r@ =~= self@);
        }
        r
    }

    /// True when no transfers are recorded; such an entry does not exist in
    /// the chain's index and is pruned after a revert empties it.
    pub fn is_empty(&self) -> (r: bool)
        requires
            self.wf(),
        ensures
            r <==> self@.is_empty(),
    {
        self.balance.zatoshis() == 0 && mset_is_empty(&self.tx_ids)
            && self.created_utxos.is_empty() && self.spent_utxos.is_empty()
    }

    /// The partial chain balance of the address.
    pub fn balance(&self) -> (r: Amount)
        requires
            self.wf(),
        ensures
            r.spec_value() == self@.balance,
            r.wf(),
    {
        self.balance
    }

    /// How many update events of one transaction touched the address.
    pub fn tx_id_count(&self, tx_hash: u64) -> (r: usize)
        ensures
            r == self@.tx_ids.count(tx_hash),
    {
        mset_count(&self.tx_ids, tx_hash)
    }

    /// The outputs sent to the address, keyed in chain order.
    pub fn created_utxos(&self) -> (r: &OrderedMap<Output>)
        requires
            self.wf(),
        ensures
            r@ == self@.created_utxos,
            r.key_seq() == self.created_key_seq(),
            r.wf(),
    {
        &self.created_utxos
    }

    /// The locations of outputs spent by the chain, keyed in chain order.
    pub fn spent_utxos(&self) -> (r: &OrderedSet)
        requires
            self.wf(),
        ensures
            r@ == self@.spent_utxos,
            r.key_seq() == self.spent_key_seq(),
            r.wf(),
    {
        &self.spent_utxos
    }

    /// The hashes of the transactions that touched this address, keyed by
    /// the packed location of each transaction, so that walking the result
    /// visits them in chain order. `chain_tx_by_hash` is the owning chain's
    /// transaction-location index: it must know every hash recorded here,
    /// and no two of them may share a location.
    pub fn tx_ids(&self, chain_tx_by_hash: &OrderedMap<TransactionLocation>) -> (r: OrderedMap<
        u64,
    >)
        requires
            self.wf(),
            chain_tx_by_hash.wf(),
            forall|h: u64|
                self@.tx_ids.count(h) > 0 ==> #[trigger] chain_tx_by_hash@.dom().contains(h),
            forall|h1: u64, h2: u64|
                #![trigger chain_tx_by_hash@[h1], chain_tx_by_hash@[h2]]
                self@.tx_ids.count(h1) > 0 && self@.tx_ids.count(h2) > 0 && h1 != h2
                    ==> chain_tx_by_hash@[h1].spec_key() != chain_tx_by_hash@[h2].spec_key(),
        ensures
            r.wf(),
            forall|h: u64|
                #[trigger] self@.tx_ids.count(h) > 0 ==> r@.dom().contains(
                    chain_tx_by_hash@[h].spec_key(),
                ) && r@[chain_tx_by_hash@[h].spec_key()] == h,
            forall|k: u64|
                #[trigger] r@.dom().contains(k) ==> exists|h: u64|
                    self@.tx_ids.count(h) > 0 && chain_tx_by_hash@[h].spec_key() == k && r@[k]
                        == h,
    {
        let hashes = mset_distinct(&self.tx_ids);
        let mut r: OrderedMap<u64> = OrderedMap::new();
        let n = hashes.len();
        let mut i: usize = 0;
        while i < n
            invariant
                i <= n,
                n == hashes@.len(),
                self.wf(),
                chain_tx_by_hash.wf(),
                forall|x: u64|
                    #[trigger] hashes@.contains(x) <==> self@.tx_ids.count(x) > 0,
                hashes@.no_duplicates(),
                forall|h: u64|
                    self@.tx_ids.count(h) > 0 ==> #[trigger] chain_tx_by_hash@.dom().contains(h),
                forall|h1: u64, h2: u64|
                    #![trigger chain_tx_by_hash@[h1], chain_tx_by_hash@[h2]]
                    self@.tx_ids.count(h1) > 0 && self@.tx_ids.count(h2) > 0 && h1 != h2
                        ==> chain_tx_by_hash@[h1].spec_key() != chain_tx_by_hash@[h2].spec_key(),
                r.wf(),
                forall|x: int|
                    0 <= x < i ==> r@.dom().contains(
                        #[trigger] chain_tx_by_hash@[hashes@[x]].spec_key(),
                    ) && r@[chain_tx_by_hash@[hashes@[x]].spec_key()] == hashes@[x],
                forall|k: u64|
                    #[trigger] r@.dom().contains(k) ==> exists|x: int|
                        0 <= x < i && chain_tx_by_hash@[hashes@[x]].spec_key() == k && r@[k]
                            == hashes@[x],
            decreases n - i,
        {
            let h = hashes[i];
            proof {
                assert(hashes@.contains(h));
            }
            match chain_tx_by_hash.get(h) {
                Some(loc) => {
                    let key = loc.key();
                    let ghost pre_r = r@;
                    r.insert(key, h);
                    proof {
                        assert forall|x: int|
                            0 <= x < i + 1 implies r@.dom().contains(
                            #[trigger] chain_tx_by_hash@[hashes@[x]].spec_key(),
                        ) && r@[chain_tx_by_hash@[hashes@[x]].spec_key()] == hashes@[x] by {
                            if x < i {
                                assert(hashes@.contains(hashes@[x]));
                                assert(hashes@[x] != h);
                                assert(chain_tx_by_hash@[hashes@[x]].spec_key() != key);
                            }
                        }
                        assert forall|k: u64| #[trigger] r@.dom().contains(k) implies exists|
                            x: int,
                        |
                            0 <= x < i + 1 && chain_tx_by_hash@[hashes@[x]].spec_key() == k
                                && r@[k] == hashes@[x] by {
                            if k == key {
                                assert(chain_tx_by_hash@[hashes@[i as int]].spec_key() == k
                                    && r@[k] == hashes@[i as int]);
                            } else {
                                assert(pre_r.dom().contains(k));
                                let x = choose|x: int|
                                    0 <= x < i && chain_tx_by_hash@[hashes@[x]].spec_key() == k
                                        && pre_r[k] == hashes@[x];
                            }
                        }
                    }
                },
                None => {
                    proof {
                        assert(false);
                    }
                },
            }
            i = i + 1;
        }
        proof {
            assert forall|h: u64| #[trigger] self@.tx_ids.count(h) > 0 implies r@.dom().contains(
                chain_tx_by_hash@[h].spec_key(),
            ) && r@[chain_tx_by_hash@[h].spec_key()] == h by {
                assert(hashes@.contains(h));
                let x = choose|x: int| 0 <= x < hashes@.len() && hashes@[x] == h;
            }
            assert forall|k: u64| #[trigger] r@.dom().contains(k) implies exists|h: u64|
                self@.tx_ids.count(h) > 0 && chain_tx_by_hash@[h].spec_key() == k && r@[k]
                    == h by {
                let x = choose|x: int|
                    0 <= x < n && chain_tx_by_hash@[hashes@[x]].spec_key() == k && r@[k]
                        == hashes@[x];
                assert(hashes@.contains(hashes@[x]));
                assert(self@.tx_ids.count(hashes@[x]) > 0 && chain_tx_by_hash@[
                    hashes@[x]].spec_key() == k && r@[k] == hashes@[x]);
            }
        }
        r
    }

    /// Applies a newly connected block's update event. Succeeds exactly when
    /// no structural invariant is violated and the balance stays in range; on
    /// any failure the index is left untouched and the error says exactly
    /// what was wrong, a duplicate insert being a fatal fault, never a silent
    /// overwrite.
    pub fn update_chain_tip_with(&mut self, update: &TransferUpdate) -> (r: Result<
        (),
        ApplyError,
    >)
        requires
            old(self).wf(),
            update.wf(),
        ensures
            final(self).wf(),
            r is Ok <==> can_apply(old(self)@, *update),
            r is Ok ==> final(self)@ == tv_apply(old(self)@, *update),
            r is Err ==> final(self)@ == old(self)@ && r->Err_0 == apply_error(
                old(self)@,
                *update,
            ),
    {
        match update {
            TransferUpdate::Creation(c) => {
                let key = c.location.key();
                if self.created_utxos.contains_key(key) {
                    return Err(ApplyError::Fault(StructuralFault::DuplicateCreatedUtxo));
                }
                let count = mset_count(&self.tx_ids, c.creating_tx_hash);
                if count == usize::MAX {
                    return Err(ApplyError::Fault(StructuralFault::TxIdCountSaturated));
                }
                match self.balance.checked_add(c.output.value) {
                    Err(e) => Err(ApplyError::Validation(e)),
                    Ok(new_balance) => {
                        self.balance = new_balance;
                        self.created_utxos.insert(key, c.output);
                        mset_insert(&mut self.tx_ids, c.creating_tx_hash);
                        proof {
                            assert(final(self)@ =~= tv_apply(old(self)@, *update));
                        }
                        Ok(())
                    },
                }
            },
            TransferUpdate::Spend(s) => {
                let key = s.spent_location.key();
                if self.spent_utxos.contains(key) {
                    return Err(ApplyError::Fault(StructuralFault::DuplicateSpentUtxo));
                }
                let count = mset_count(&self.tx_ids, s.spending_tx_hash);
                if count == usize::MAX {
                    return Err(ApplyError::Fault(StructuralFault::TxIdCountSaturated));
                }
                match self.balance.checked_sub(s.spent_output.value) {
                    Err(e) => Err(ApplyError::Validation(e)),
                    Ok(new_balance) => {
                        self.balance = new_balance;
                        self.spent_utxos.insert(key);
                        mset_insert(&mut self.tx_ids, s.spending_tx_hash);
                        proof {
                            assert(final(self)@ =~= tv_apply(old(self)@, *update));
                        }
                        Ok(())
                    },
                }
            },
        }
    }

    /// Undoes a previously applied update event. By construction a caller
    /// only reverts what was applied, so every removal finds what it expects
    /// and the call succeeds; a failure is a fatal structural fault meaning
    /// apply and revert have desynchronized, and leaves the index untouched.
    /// The position tag does not change the field arithmetic.
    pub fn revert_chain_with(&mut self, update: &TransferUpdate, position: RevertPosition) -> (r:
        Result<(), StructuralFault>)
        requires
            old(self).wf(),
            update.wf(),
        ensures
            final(self).wf(),
            r is Ok <==> can_revert(old(self)@, *update),
            r is Ok ==> final(self)@ == tv_revert(old(self)@, *update),
            r is Err ==> final(self)@ == old(self)@ && r->Err_0 == revert_error(
                old(self)@,
                *update,
            ),
    {
        let _ = position;
        match update {
            TransferUpdate::Creation(c) => {
                let key = c.location.key();
                if !self.created_utxos.contains_key(key) {
                    return Err(StructuralFault::MissingCreatedUtxo);
                }
                let count = mset_count(&self.tx_ids, c.creating_tx_hash);
                if count == 0 {
                    return Err(StructuralFault::MissingTxId);
                }
                match self.balance.checked_sub(c.output.value) {
                    Err(_) => Err(StructuralFault::BalanceOutOfRangeOnRevert),
                    Ok(new_balance) => {
                        self.balance = new_balance;
                        self.created_utxos.remove(key);
                        mset_remove(&mut self.tx_ids, c.creating_tx_hash);
                        proof {
                            assert(final(self)@ =~= tv_revert(old(self)@, *update));
                        }
                        Ok(())
                    },
                }
            },
            TransferUpdate::Spend(s) => {
                let key = s.spent_location.key();
                if !self.spent_utxos.contains(key) {
                    return Err(StructuralFault::MissingSpentUtxo);
                }
                let count = mset_count(&self.tx_ids, s.spending_tx_hash);
                if count == 0 {
                    return Err(StructuralFault::MissingTxId);
                }
                match self.balance.checked_add(s.spent_output.value) {
                    Err(_) => Err(StructuralFault::BalanceOutOfRangeOnRevert),
                    Ok(new_balance) => {
                        self.balance = new_balance;
                        self.spent_utxos.remove(key);
                        mset_remove(&mut self.tx_ids, s.spending_tx_hash);
                        proof {
                            assert(final(self)@ =~= tv_revert(old(self)@, *update));
                        }
                        Ok(())
                    },
                }
            },
        }
    }
}

impl Default for TransparentTransfers {
    /// An index holding no transfers.
    fn default() -> (r: TransparentTransfers)
        ensures
            r.wf(),
            r@ == TransfersView::empty(),
    {
        TransparentTransfers::new()
    }
}

} // verus!
