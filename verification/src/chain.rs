//! One candidate chain: the per-address transfer indices and the block
//! sequence applied since the finalized ancestor, with extend, retract and
//! fork-at-point.

use vstd::prelude::*;
use crate::amount::amount_in_range;
use crate::errors::{ApplyError, StructuralFault};
use crate::laws::lemma_apply_then_revert;
use crate::transfers::{
    can_apply, can_revert, tv_apply, tv_revert, RevertPosition, TransferUpdate, TransfersView,
    TransparentTransfers,
};
use crate::omap::OrderedMap;

verus! {

/// One update event addressed to one transparent address.
#[derive(Clone, Copy, PartialEq, Eq, Structural, Debug)]
pub struct AddressedUpdate {
    /// The touched address.
    pub address: u64,
    /// What happened to it.
    pub update: TransferUpdate,
}

/// A block reduced to what the index protocol reads: identity, linkage, and
/// the addressed update events of its transactions in block order.
#[derive(PartialEq, Eq, Debug)]
pub struct Block {
    pub hash: u64,
    pub parent_hash: u64,
    pub height: u32,
    pub updates: Vec<AddressedUpdate>,
}

impl Block {
    /// Every update event of the block is well formed.
    pub open spec fn wf(self) -> bool {
        forall|i: int| 0 <= i < self.updates@.len() ==> (#[trigger] self.updates@[i]).update.wf()
    }
}

impl Clone for Block {
    /// An exact copy.
    fn clone(&self) -> (r: Self)
        ensures
            r.hash == self.hash,
            r.parent_hash == self.parent_hash,
            r.height == self.height,
            r.updates@ == self.updates@,
    {
        let mut updates: Vec<AddressedUpdate> = Vec::new();
        let n = self.updates.len();
        let mut i: usize = 0;
        while i < n
            invariant
                i <= n,
                n == self.updates@.len(),
                updates@ == self.updates@.take(i as int),
            decreases n - i,
        {
            updates.push(self.updates[i]);
            proof {
                assert(updates@ =~= self.updates@.take(i as int + 1));
            }
            i = i + 1;
        }
        proof {
            assert(self.updates@.take(n as int) =~= self.updates@);
        }
        let r = Block { hash: self.hash, parent_hash: self.parent_hash, height: self.height, updates };
        proof {
            assert(r.updates@ =~= self.updates@);
        }
        r
    }
}

/// The per-address view of a whole chain: address to transfer state, with no
/// entry for an address whose state is empty.
pub open spec fn map_state(m: Map<u64, TransparentTransfers>) -> Map<u64, TransfersView> {
    Map::new(|a: u64| m.dom().contains(a), |a: u64| m[a]@)
}

/// The state an address has in a chain view: its entry, or empty if absent.
pub open spec fn state_get(s: Map<u64, TransfersView>, a: u64) -> TransfersView {
    if s.dom().contains(a) {
        s[a]
    } else {
        TransfersView::empty()
    }
}

/// Whether one addressed update can be applied to a chain view.
pub open spec fn state_can_apply(s: Map<u64, TransfersView>, au: AddressedUpdate) -> bool {
    can_apply(state_get(s, au.address), au.update)
}

/// A chain view after one addressed update is applied.
pub open spec fn state_apply(s: Map<u64, TransfersView>, au: AddressedUpdate) -> Map<
    u64,
    TransfersView,
> {
    s.insert(au.address, tv_apply(state_get(s, au.address), au.update))
}

/// Whether one addressed update can be reverted from a chain view.
pub open spec fn state_can_revert(s: Map<u64, TransfersView>, au: AddressedUpdate) -> bool {
    s.dom().contains(au.address) && can_revert(s[au.address], au.update)
}

/// A chain view after one addressed update is reverted; an entry emptied by
/// the revert is pruned.
pub open spec fn state_revert(s: Map<u64, TransfersView>, au: AddressedUpdate) -> Map<
    u64,
    TransfersView,
> {
    let t = tv_revert(state_get(s, au.address), au.update);
    if t.is_empty() {
        s.remove(au.address)
    } else {
        s.insert(au.address, t)
    }
}

/// A chain view after a sequence of addressed updates, oldest first.
pub open spec fn state_apply_seq(s: Map<u64, TransfersView>, us: Seq<AddressedUpdate>) -> Map<
    u64,
    TransfersView,
>
    decreases us.len(),
{
    if us.len() == 0 {
        s
    } else {
        state_apply(state_apply_seq(s, us.drop_last()), us.last())
    }
}

/// Every update of the sequence, applied in order, is permitted.
pub open spec fn state_can_apply_seq(s: Map<u64, TransfersView>, us: Seq<AddressedUpdate>) -> bool
    decreases us.len(),
{
    us.len() == 0 || (state_can_apply_seq(s, us.drop_last()) && state_can_apply(
        state_apply_seq(s, us.drop_last()),
        us.last(),
    ))
}

/// A chain view after reverting a sequence of addressed updates, newest
/// first.
pub open spec fn state_revert_seq_rev(s: Map<u64, TransfersView>, us: Seq<AddressedUpdate>) -> Map<
    u64,
    TransfersView,
>
    decreases us.len(),
{
    if us.len() == 0 {
        s
    } else {
        state_revert_seq_rev(state_revert(s, us.last()), us.drop_last())
    }
}

/// Every update of the sequence, reverted newest first, finds what it
/// expects.
pub open spec fn state_can_revert_seq_rev(
    s: Map<u64, TransfersView>,
    us: Seq<AddressedUpdate>,
) -> bool
    decreases us.len(),
{
    us.len() == 0 || (state_can_revert(s, us.last()) && state_can_revert_seq_rev(
        state_revert(s, us.last()),
        us.drop_last(),
    ))
}

/// Every entry of a chain view is non-empty with an in-range balance.
pub open spec fn state_ok(s: Map<u64, TransfersView>) -> bool {
    forall|a: u64| #[trigger] s.dom().contains(a) ==> (amount_in_range(s[a].balance)
        && !s[a].is_empty())
}

/// One permitted apply of an addressed update is exactly inverted by one
/// revert of it, at the whole-chain level, pruning included.
pub proof fn lemma_state_apply_then_revert(s: Map<u64, TransfersView>, au: AddressedUpdate)
    requires
        state_ok(s),
        au.update.wf(),
        state_can_apply(s, au),
    ensures
        state_ok(state_apply(s, au)),
        state_can_revert(state_apply(s, au), au),
        state_revert(state_apply(s, au), au) == s,
{
    let t = state_get(s, au.address);
    assert(amount_in_range(t.balance));
    lemma_apply_then_revert(t, au.update);
    let t2 = tv_apply(t, au.update);
    assert(!t2.is_empty()) by {
        assert(t2.tx_ids.count(au.update.tx_hash()) > 0);
    }
    let s2 = state_apply(s, au);
    assert(state_ok(s2)) by {
        assert(forall|a: u64|
            #[trigger] s2.dom().contains(a) && a != au.address ==> s2[a] == s[a]);
    }
    assert(tv_revert(t2, au.update) == t);
    if t.is_empty() {
        assert(t =~= TransfersView::empty());
        assert(!s.dom().contains(au.address)) by {
            if s.dom().contains(au.address) {
                assert(!s[au.address].is_empty());
            }
        }
        assert(state_revert(s2, au) =~= s);
    } else {
        assert(s.dom().contains(au.address)) by {
            if !s.dom().contains(au.address) {
                assert(t == TransfersView::empty());
                assert(t.is_empty());
            }
        }
        assert(state_revert(s2, au) =~= s);
    }
}

/// Applies one addressed update to a per-address index map: the entry is
/// created lazily on first touch, and on failure nothing visible changes.
fn apply_update(
    transfers: &mut OrderedMap<TransparentTransfers>,
    au: &AddressedUpdate,
) -> (r: Result<(), ApplyError>)
    requires
        old(transfers).wf(),
        forall|a: u64|
            #[trigger] old(transfers)@.dom().contains(a) ==> (old(transfers)@[a].wf()
                && !(old(transfers)@[a]@.is_empty())),
        au.update.wf(),
    ensures
        final(transfers).wf(),
        forall|a: u64|
            #[trigger] final(transfers)@.dom().contains(a) ==> (final(transfers)@[a].wf()
                && !(final(transfers)@[a]@.is_empty())),
        r is Ok <==> state_can_apply(map_state(old(transfers)@), *au),
        r is Ok ==> map_state(final(transfers)@) == state_apply(map_state(old(transfers)@), *au),
        r is Err ==> map_state(final(transfers)@) == map_state(old(transfers)@),
{
    let ghost s0 = map_state(old(transfers)@);
    let mut existed: bool = false;
    let mut t: TransparentTransfers;
    match transfers.remove(au.address) {
        Some(old_t) => {
            t = old_t;
            existed = true;
        },
        None => {
            t = TransparentTransfers::new();
        },
    }
    proof {
        assert(state_get(s0, au.address) == t@);
    }
    match t.update_chain_tip_with(&au.update) {
        Ok(()) => {
            proof {
                assert(!t@.is_empty()) by {
                    assert(t@.tx_ids.count(au.update.tx_hash()) > 0);
                }
            }
            transfers.insert(au.address, t);
            proof {
                assert(map_state(final(transfers)@) =~= state_apply(s0, *au));
            }
            Ok(())
        },
        Err(e) => {
            if existed {
                transfers.insert(au.address, t);
                proof {
                    assert(map_state(final(transfers)@) =~= s0);
                }
            } else {
                proof {
                    assert(map_state(final(transfers)@) =~= s0);
                }
            }
            Err(e)
        },
    }
}

/// Reverts one addressed update from a per-address index map; an entry left
/// with no transfers is pruned. A missing entry is a fatal fault and leaves
/// the map unchanged.
fn revert_update(
    transfers: &mut OrderedMap<TransparentTransfers>,
    au: &AddressedUpdate,
    position: RevertPosition,
) -> (r: Result<(), StructuralFault>)
    requires
        old(transfers).wf(),
        forall|a: u64|
            #[trigger] old(transfers)@.dom().contains(a) ==> (old(transfers)@[a].wf()
                && !(old(transfers)@[a]@.is_empty())),
        au.update.wf(),
    ensures
        final(transfers).wf(),
        forall|a: u64|
            #[trigger] final(transfers)@.dom().contains(a) ==> (final(transfers)@[a].wf()
                && !(final(transfers)@[a]@.is_empty())),
        r is Ok <==> state_can_revert(map_state(old(transfers)@), *au),
        r is Ok ==> map_state(final(transfers)@) == state_revert(map_state(old(transfers)@), *au),
        r is Err ==> map_state(final(transfers)@) == map_state(old(transfers)@),
{
    let ghost s0 = map_state(old(transfers)@);
    match transfers.remove(au.address) {
        None => {
            proof {
                assert(map_state(final(transfers)@) =~= s0);
            }
            match au.update {
                TransferUpdate::Creation(_) => Err(StructuralFault::MissingCreatedUtxo),
                TransferUpdate::Spend(_) => Err(StructuralFault::MissingSpentUtxo),
            }
        },
        Some(mut t) => {
            proof {
                assert(s0.dom().contains(au.address) && s0[au.address] == t@);
            }
            match t.revert_chain_with(&au.update, position) {
                Err(f) => {
                    transfers.insert(au.address, t);
                    proof {
                        assert(map_state(final(transfers)@) =~= s0);
                    }
                    Err(f)
                },
                Ok(()) => {
                    if t.is_empty() {
                        proof {
                            assert(map_state(final(transfers)@) =~= state_revert(s0, *au));
                        }
                    } else {
                        transfers.insert(au.address, t);
                        proof {
                            assert(map_state(final(transfers)@) =~= state_revert(s0, *au));
                        }
                    }
                    Ok(())
                },
            }
        },
    }
}

/// Two blocks hold the same data.
pub open spec fn block_fields_eq(a: Block, b: Block) -> bool {
    a.hash == b.hash && a.parent_hash == b.parent_hash && a.height == b.height && a.updates@
        == b.updates@
}

/// The update sequences of a sequence of blocks, in block order.
pub open spec fn blocks_updates(bs: Seq<Block>) -> Seq<Seq<AddressedUpdate>> {
    bs.map_values(|b: Block| b.updates@)
}

/// A chain view after reverting whole blocks, newest block first.
pub open spec fn state_revert_blockseq(
    s: Map<u64, TransfersView>,
    uss: Seq<Seq<AddressedUpdate>>,
) -> Map<u64, TransfersView>
    decreases uss.len(),
{
    if uss.len() == 0 {
        s
    } else {
        state_revert_blockseq(state_revert_seq_rev(s, uss.last()), uss.drop_last())
    }
}

/// Every block of the sequence, reverted newest block first, finds what it
/// expects.
pub open spec fn state_can_revert_blockseq(
    s: Map<u64, TransfersView>,
    uss: Seq<Seq<AddressedUpdate>>,
) -> bool
    decreases uss.len(),
{
    uss.len() == 0 || (state_can_revert_seq_rev(s, uss.last()) && state_can_revert_blockseq(
        state_revert_seq_rev(s, uss.last()),
        uss.drop_last(),
    ))
}

/// If a whole update sequence can be applied, so can every proper prefix,
/// and each single step from the state its prefix reaches.
pub proof fn lemma_can_apply_seq_prefix(
    s: Map<u64, TransfersView>,
    us: Seq<AddressedUpdate>,
    k: int,
)
    requires
        state_can_apply_seq(s, us),
        0 <= k < us.len(),
    ensures
        state_can_apply_seq(s, us.take(k)),
        state_can_apply(state_apply_seq(s, us.take(k)), us[k]),
    decreases us.len(),
{
    if k == us.len() - 1 {
        assert(us.take(k) =~= us.drop_last());
    } else {
        assert(us.drop_last().take(k) =~= us.take(k));
        lemma_can_apply_seq_prefix(s, us.drop_last(), k);
    }
}

/// A permitted apply sequence keeps every entry non-empty with an in-range
/// balance.
pub proof fn lemma_state_ok_apply_seq(s: Map<u64, TransfersView>, us: Seq<AddressedUpdate>)
    requires
        state_ok(s),
        forall|i: int| 0 <= i < us.len() ==> (#[trigger] us[i]).update.wf(),
        state_can_apply_seq(s, us),
    ensures
        state_ok(state_apply_seq(s, us)),
    decreases us.len(),
{
    if us.len() > 0 {
        assert(forall|i: int| 0 <= i < us.drop_last().len() ==> us.drop_last()[i] == us[i]);
        lemma_state_ok_apply_seq(s, us.drop_last());
        lemma_state_apply_then_revert(state_apply_seq(s, us.drop_last()), us.last());
    }
}

/// One candidate chain: the per-address transfer indices together with the
/// blocks applied since the finalized ancestor.
pub struct ChainForkNode {
    transfers: OrderedMap<TransparentTransfers>,
    blocks: Vec<Block>,
    root_parent_hash: u64,
    root_height: u32,
}

impl ChainForkNode {
    /// The per-address chain view.
    pub closed spec fn state(self) -> Map<u64, TransfersView> {
        map_state(self.transfers@)
    }

    /// The blocks applied since the finalized ancestor, oldest first.
    pub closed spec fn blocks_seq(self) -> Seq<Block> {
        self.blocks@
    }

    /// The hash of the finalized block this chain grows from.
    pub closed spec fn spec_root_parent_hash(self) -> u64 {
        self.root_parent_hash
    }

    /// The height the oldest in-memory block has (or would have).
    pub closed spec fn spec_root_height(self) -> u32 {
        self.root_height
    }

    /// The representation invariant: sorted well-formed non-empty address
    /// entries, and blocks contiguous in height and linked by parent hash.
    pub closed spec fn wf(self) -> bool {
        &&& self.transfers.wf()
        &&& forall|a: u64|
            #[trigger] self.transfers@.dom().contains(a) ==> (self.transfers@[a].wf()
                && !self.transfers@[a]@.is_empty())
        &&& self.root_height + self.blocks@.len() <= u32::MAX
        &&& forall|i: int|
            0 <= i < self.blocks@.len() ==> (#[trigger] self.blocks@[i]).height
                == self.root_height + i && self.blocks@[i].wf()
        &&& (self.blocks@.len() > 0 ==> self.blocks@[0].parent_hash == self.root_parent_hash)
        &&& forall|i: int|
            1 <= i < self.blocks@.len() ==> (#[trigger] self.blocks@[i]).parent_hash
                == self.blocks@[i - 1].hash
    }

    /// The hash a child block of the current tip must name as its parent.
    pub open spec fn spec_tip_hash(self) -> u64 {
        if self.blocks_seq().len() == 0 {
            self.spec_root_parent_hash()
        } else {
            self.blocks_seq().last().hash
        }
    }

    /// The height the next block must have.
    pub open spec fn spec_next_height(self) -> int {
        self.spec_root_height() + self.blocks_seq().len()
    }

    /// The block linkage facts a well-formed chain guarantees.
    pub proof fn lemma_wf_facts(self)
        requires
            self.wf(),
        ensures
            self.spec_root_height() + self.blocks_seq().len() <= u32::MAX,
            forall|i: int|
                0 <= i < self.blocks_seq().len() ==> (#[trigger] self.blocks_seq()[i]).height
                    == self.spec_root_height() + i && self.blocks_seq()[i].wf(),
            self.blocks_seq().len() > 0 ==> self.blocks_seq()[0].parent_hash
                == self.spec_root_parent_hash(),
            forall|i: int|
                1 <= i < self.blocks_seq().len() ==> (#[trigger] self.blocks_seq()[i]).parent_hash
                    == self.blocks_seq()[i - 1].hash,
    {
    }

    /// A well-formed chain's view has non-empty entries with in-range
    /// balances.
    pub proof fn lemma_state_ok(self)
        requires
            self.wf(),
        ensures
            state_ok(self.state()),
    {
        assert forall|a: u64| #[trigger] self.state().dom().contains(a) implies (amount_in_range(
            self.state()[a].balance,
        ) && !self.state()[a].is_empty()) by {
            self.transfers@[a].lemma_wf_balance();
        }
    }

    /// An empty chain rooted on a finalized ancestor.
    pub fn new(root_parent_hash: u64, root_height: u32) -> (r: ChainForkNode)
        ensures
            r.wf(),
            r.state() == Map::<u64, TransfersView>::empty(),
            r.blocks_seq() == Seq::<Block>::empty(),
            r.spec_root_parent_hash() == root_parent_hash,
            r.spec_root_height() == root_height,
    {
        let r = ChainForkNode {
            transfers: OrderedMap::new(),
            blocks: Vec::new(),
            root_parent_hash,
            root_height,
        };
        proof {
            assert(r.state() =~= Map::<u64, TransfersView>::empty());
            assert(r.blocks_seq() =~= Seq::<Block>::empty());
        }
        r
    }

    /// The hash the next block must extend.
    pub fn tip_hash(&self) -> (r: u64)
        ensures
            r == self.spec_tip_hash(),
    {
        let n = self.blocks.len();
        if n == 0 {
            self.root_parent_hash
        } else {
            self.blocks[n - 1].hash
        }
    }

    /// The height the next block must have.
    pub fn next_height(&self) -> (r: u32)
        requires
            self.wf(),
        ensures
            r == self.spec_next_height(),
    {
        self.root_height + (self.blocks.len() as u32)
    }

    /// How many blocks the chain holds in memory.
    pub fn len(&self) -> (r: usize)
        ensures
            r == self.blocks_seq().len(),
    {
        self.blocks.len()
    }

    /// The hash of the oldest in-memory block, if any.
    pub fn root_hash(&self) -> (r: Option<u64>)
        ensures
            self.blocks_seq().len() == 0 ==> r is None,
            self.blocks_seq().len() > 0 ==> r == Some(self.blocks_seq()[0].hash),
    {
        if self.blocks.len() == 0 {
            None
        } else {
            Some(self.blocks[0].hash)
        }
    }

    /// The height and hash of the newest block.
    pub fn last_block(&self) -> (r: (u32, u64))
        requires
            self.blocks_seq().len() > 0,
        ensures
            r.0 == self.blocks_seq().last().height,
            r.1 == self.blocks_seq().last().hash,
    {
        let n = self.blocks.len();
        (self.blocks[n - 1].height, self.blocks[n - 1].hash)
    }

    /// The height and hash of block `i`, counting from the root.
    pub fn block_id(&self, i: usize) -> (r: (u32, u64))
        requires
            i < self.blocks_seq().len(),
        ensures
            r.0 == self.blocks_seq()[i as int].height,
            r.1 == self.blocks_seq()[i as int].hash,
    {
        (self.blocks[i].height, self.blocks[i].hash)
    }

    /// The transfer index of one address, if the address appears in this
    /// chain's history.
    pub fn address_transfers(&self, address: u64) -> (r: Option<&TransparentTransfers>)
        requires
            self.wf(),
        ensures
            match r {
                Some(t) => self.state().dom().contains(address) && t@ == self.state()[address]
                    && t.wf(),
                None => !self.state().dom().contains(address),
            },
    {
        self.transfers.get(address)
    }

    /// Connects a block at the tip: applies every update event in block
    /// order. If an update's validation fails, every update already applied
    /// is reverted, newest first, so a rejected block leaves the chain
    /// exactly as it was; a structural fault aborts mid-way, as the caller
    /// must abort the process.
    pub fn extend(&mut self, block: Block) -> (r: Result<(), ApplyError>)
        requires
            old(self).wf(),
            block.wf(),
            block.height == old(self).spec_next_height(),
            block.parent_hash == old(self).spec_tip_hash(),
            old(self).spec_root_height() + old(self).blocks_seq().len() + 1 <= u32::MAX,
        ensures
            final(self).wf(),
            final(self).spec_root_parent_hash() == old(self).spec_root_parent_hash(),
            final(self).spec_root_height() == old(self).spec_root_height(),
            r is Ok <==> state_can_apply_seq(old(self).state(), block.updates@),
            r is Ok ==> final(self).state() == state_apply_seq(old(self).state(), block.updates@)
                && final(self).blocks_seq() == old(self).blocks_seq().push(block),
            r is Err ==> final(self).blocks_seq() == old(self).blocks_seq(),
            (r is Err && r->Err_0 is Validation) ==> final(self).state() == old(self).state(),
    {
        let ghost s0 = old(self).state();
        let ghost us = block.updates@;
        let n = block.updates.len();
        let mut i: usize = 0;
        proof {
            old(self).lemma_state_ok();
            assert(us.take(0) =~= Seq::<AddressedUpdate>::empty());
        }
        while i < n
            invariant
                old(self).wf(),
                i <= n,
                n == us.len(),
                us == block.updates@,
                block.wf(),
                self.transfers.wf(),
                forall|a: u64|
                    #[trigger] self.transfers@.dom().contains(a) ==> (self.transfers@[a].wf()
                        && !self.transfers@[a]@.is_empty()),
                s0 == old(self).state(),
                state_ok(s0),
                state_can_apply_seq(s0, us.take(i as int)),
                map_state(self.transfers@) == state_apply_seq(s0, us.take(i as int)),
                state_ok(map_state(self.transfers@)),
                self.blocks == old(self).blocks,
                self.root_parent_hash == old(self).root_parent_hash,
                self.root_height == old(self).root_height,
            decreases n - i,
        {
            let au = block.updates[i];
            let ghost cur = map_state(self.transfers@);
            match apply_update(&mut self.transfers, &au) {
                Ok(()) => {
                    proof {
                        lemma_state_apply_then_revert(cur, au);
                        assert(us.take(i as int + 1).drop_last() =~= us.take(i as int));
                        assert(us.take(i as int + 1).last() == au);
                    }
                    i = i + 1;
                },
                Err(e) => {
                    proof {
                        assert(!state_can_apply_seq(s0, us)) by {
                            if state_can_apply_seq(s0, us) {
                                lemma_can_apply_seq_prefix(s0, us, i as int);
                            }
                        }
                    }
                    match e {
                        ApplyError::Fault(f) => {
                            return Err(ApplyError::Fault(f));
                        },
                        ApplyError::Validation(v) => {
                            // roll back what this block already applied, newest first
                            let mut j: usize = i;
                            while j > 0
                                invariant
                                    old(self).wf(),
                                    j <= n,
                                    n == us.len(),
                                    us == block.updates@,
                                    block.wf(),
                                    self.transfers.wf(),
                                    forall|a: u64|
                                        #[trigger] self.transfers@.dom().contains(a)
                                            ==> (self.transfers@[a].wf()
                                            && !self.transfers@[a]@.is_empty()),
                                    s0 == old(self).state(),
                                    state_ok(s0),
                                    state_can_apply_seq(s0, us.take(j as int)),
                                    map_state(self.transfers@) == state_apply_seq(
                                        s0,
                                        us.take(j as int),
                                    ),
                                    state_ok(map_state(self.transfers@)),
                                    self.blocks == old(self).blocks,
                                    self.root_parent_hash == old(self).root_parent_hash,
                                    self.root_height == old(self).root_height,
                                decreases j,
                            {
                                let au_j = block.updates[j - 1];
                                let ghost prev = state_apply_seq(s0, us.take(j as int - 1));
                                proof {
                                    assert(us.take(j as int).drop_last() =~= us.take(j as int - 1));
                                    assert(us.take(j as int).last() == au_j);
                                    let pre = us.take(j as int - 1);
                                    assert(forall|x: int|
                                        0 <= x < pre.len() ==> (#[trigger] pre[x]).update.wf())
                                        by {
                                        assert(forall|x: int| 0 <= x < pre.len() ==> pre[x] == us[x]);
                                    }
                                    lemma_state_ok_apply_seq(s0, pre);
                                    lemma_state_apply_then_revert(prev, au_j);
                                }
                                match revert_update(&mut self.transfers, &au_j, RevertPosition::Tip)
                                    {
                                    Ok(()) => {
                                        j = j - 1;
                                    },
                                    Err(f) => {
                                        proof {
                                            assert(false);
                                        }
                                        return Err(ApplyError::Fault(f));
                                    },
                                }
                            }
                            proof {
                                assert(us.take(0) =~= Seq::<AddressedUpdate>::empty());
                                assert(map_state(self.transfers@) =~= s0);
                            }
                            return Err(ApplyError::Validation(v));
                        },
                    }
                },
            }
        }
        proof {
            assert(us.take(n as int) =~= us);
        }
        self.blocks.push(block);
        proof {
            assert(self.wf()) by {
                assert(forall|i: int|
                    0 <= i < old(self).blocks@.len() ==> self.blocks@[i] == old(self).blocks@[i]);
                assert(self.blocks@.last() == self.blocks@[old(self).blocks@.len() as int]);
            }
        }
        Ok(())
    }

    /// Disconnects the most recently connected block, reverting its update
    /// events newest first; used when a losing fork is unwound. By
    /// construction every revert of applied history succeeds; a failure is a
    /// fatal fault.
    pub fn retract_tip(&mut self) -> (r: Result<Block, StructuralFault>)
        requires
            old(self).wf(),
            old(self).blocks_seq().len() > 0,
        ensures
            final(self).wf(),
            final(self).spec_root_parent_hash() == old(self).spec_root_parent_hash(),
            final(self).spec_root_height() == old(self).spec_root_height(),
            r is Ok <==> state_can_revert_seq_rev(
                old(self).state(),
                old(self).blocks_seq().last().updates@,
            ),
            r is Ok ==> final(self).state() == state_revert_seq_rev(
                old(self).state(),
                old(self).blocks_seq().last().updates@,
            ) && final(self).blocks_seq() == old(self).blocks_seq().drop_last()
                && block_fields_eq(r->Ok_0, old(self).blocks_seq().last()),
            r is Err ==> final(self).blocks_seq() == old(self).blocks_seq(),
    {
        let ghost s0 = old(self).state();
        let n = self.blocks.len();
        let ghost us = self.blocks@.last().updates@;
        let m = self.blocks[n - 1].updates.len();
        let mut j: usize = m;
        proof {
            assert(us.take(m as int) =~= us);
        }
        while j > 0
            invariant
                old(self).wf(),
                s0 == old(self).state(),
                j <= m,
                m == us.len(),
                n == self.blocks@.len(),
                self.blocks == old(self).blocks,
                self.blocks@.len() > 0,
                us == self.blocks@.last().updates@,
                self.blocks@.last().wf(),
                self.transfers.wf(),
                forall|a: u64|
                    #[trigger] self.transfers@.dom().contains(a) ==> (self.transfers@[a].wf()
                        && !self.transfers@[a]@.is_empty()),
                state_can_revert_seq_rev(s0, us) <==> state_can_revert_seq_rev(
                    map_state(self.transfers@),
                    us.take(j as int),
                ),
                state_revert_seq_rev(s0, us) == state_revert_seq_rev(
                    map_state(self.transfers@),
                    us.take(j as int),
                ),
                self.root_parent_hash == old(self).root_parent_hash,
                self.root_height == old(self).root_height,
            decreases j,
        {
            let au = self.blocks[n - 1].updates[j - 1];
            proof {
                assert(us.take(j as int).last() == au);
                assert(us.take(j as int).drop_last() =~= us.take(j as int - 1));
            }
            match revert_update(&mut self.transfers, &au, RevertPosition::Tip) {
                Ok(()) => {
                    j = j - 1;
                },
                Err(f) => {
                    return Err(f);
                },
            }
        }
        proof {
            assert(us.take(0) =~= Seq::<AddressedUpdate>::empty());
        }
        match self.blocks.pop() {
            Some(b) => {
                proof {
                    assert(self.blocks@ =~= old(self).blocks@.drop_last());
                    assert(self.wf());
                }
                Ok(b)
            },
            None => {
                proof {
                    assert(false);
                }
                Err(StructuralFault::MissingCreatedUtxo)
            },
        }
    }

    /// Disconnects the oldest in-memory block, reverting its update events
    /// newest first, as the last step before that block is promoted into
    /// finalized storage; the chain's history window then slides forward by
    /// one block. A failure is a fatal fault.
    pub fn retract_root(&mut self) -> (r: Result<Block, StructuralFault>)
        requires
            old(self).wf(),
            old(self).blocks_seq().len() > 0,
        ensures
            final(self).wf(),
            r is Ok <==> state_can_revert_seq_rev(
                old(self).state(),
                old(self).blocks_seq()[0].updates@,
            ),
            r is Ok ==> {
                &&& final(self).state() == state_revert_seq_rev(
                    old(self).state(),
                    old(self).blocks_seq()[0].updates@,
                )
                &&& final(self).blocks_seq() == old(self).blocks_seq().subrange(
                    1,
                    old(self).blocks_seq().len() as int,
                )
                &&& block_fields_eq(r->Ok_0, old(self).blocks_seq()[0])
                &&& final(self).spec_root_parent_hash() == old(self).blocks_seq()[0].hash
                &&& final(self).spec_root_height() == old(self).spec_root_height() + 1
            },
            r is Err ==> {
                &&& final(self).blocks_seq() == old(self).blocks_seq()
                &&& final(self).spec_root_parent_hash() == old(self).spec_root_parent_hash()
                &&& final(self).spec_root_height() == old(self).spec_root_height()
            },
    {
        let ghost s0 = old(self).state();
        let ghost us = self.blocks@[0].updates@;
        let m = self.blocks[0].updates.len();
        let mut j: usize = m;
        proof {
            assert(us.take(m as int) =~= us);
        }
        while j > 0
            invariant
                old(self).wf(),
                s0 == old(self).state(),
                j <= m,
                m == us.len(),
                self.blocks == old(self).blocks,
                self.blocks@.len() > 0,
                us == self.blocks@[0].updates@,
                self.blocks@[0].wf(),
                self.transfers.wf(),
                forall|a: u64|
                    #[trigger] self.transfers@.dom().contains(a) ==> (self.transfers@[a].wf()
                        && !self.transfers@[a]@.is_empty()),
                state_can_revert_seq_rev(s0, us) <==> state_can_revert_seq_rev(
                    map_state(self.transfers@),
                    us.take(j as int),
                ),
                state_revert_seq_rev(s0, us) == state_revert_seq_rev(
                    map_state(self.transfers@),
                    us.take(j as int),
                ),
                self.root_parent_hash == old(self).root_parent_hash,
                self.root_height == old(self).root_height,
            decreases j,
        {
            let au = self.blocks[0].updates[j - 1];
            proof {
                assert(us.take(j as int).last() == au);
                assert(us.take(j as int).drop_last() =~= us.take(j as int - 1));
            }
            match revert_update(&mut self.transfers, &au, RevertPosition::Root) {
                Ok(()) => {
                    j = j - 1;
                },
                Err(f) => {
                    return Err(f);
                },
            }
        }
        proof {
            assert(us.take(0) =~= Seq::<AddressedUpdate>::empty());
        }
        let b = self.blocks.remove(0);
        self.root_parent_hash = b.hash;
        self.root_height = self.root_height + 1;
        proof {
            assert(self.blocks@ =~= old(self).blocks@.subrange(
                1,
                old(self).blocks@.len() as int,
            ));
            assert(self.wf()) by {
                assert(forall|i: int|
                    0 <= i < self.blocks@.len() ==> self.blocks@[i] == old(self).blocks@[i + 1]);
            }
        }
        Ok(b)
    }

    /// The chain's oldest block can be retracted: every revert of its
    /// update events, newest first, finds what it expects.
    pub open spec fn can_retract_root(self) -> bool {
        self.blocks_seq().len() > 0 && state_can_revert_seq_rev(
            self.state(),
            self.blocks_seq()[0].updates@,
        )
    }

    /// How many blocks a fork truncated to `height` keeps.
    pub open spec fn kept_blocks(self, height: u32) -> int {
        if height < self.spec_root_height() {
            0
        } else if self.spec_root_height() + self.blocks_seq().len() <= height + 1 {
            self.blocks_seq().len() as int
        } else {
            height + 1 - self.spec_root_height()
        }
    }

    /// A deep copy of this chain truncated to `height`: the fork owns an
    /// independent copy of every per-address index from this point on, and
    /// this chain is left untouched. Blocks above `height` are retracted
    /// from the copy's tip, newest first; a failing revert is a fatal fault.
    pub fn fork_at(&self, height: u32) -> (r: Result<ChainForkNode, StructuralFault>)
        requires
            self.wf(),
        ensures
            r is Ok <==> state_can_revert_blockseq(
                self.state(),
                blocks_updates(self.blocks_seq()).skip(self.kept_blocks(height)),
            ),
            r is Ok ==> r->Ok_0.wf() && r->Ok_0.blocks_seq().len() == self.kept_blocks(height) && (
            forall|i: int|
                0 <= i < self.kept_blocks(height) ==> block_fields_eq(
                    #[trigger] r->Ok_0.blocks_seq()[i],
                    self.blocks_seq()[i],
                )) && r->Ok_0.spec_root_parent_hash() == self.spec_root_parent_hash()
                && r->Ok_0.spec_root_height() == self.spec_root_height() && r->Ok_0.state()
                == state_revert_blockseq(
                self.state(),
                blocks_updates(self.blocks_seq()).skip(self.kept_blocks(height)),
            ),
    {
        // deep-copy the per-address indices
        let mut transfers: OrderedMap<TransparentTransfers> = OrderedMap::new();
        let n = self.transfers.len();
        let mut idx: usize = 0;
        proof {
            self.transfers.lemma_view();
        }
        while idx < n
            invariant
                idx <= n,
                n == self.transfers.key_seq().len(),
                self.wf(),
                transfers.wf(),
                transfers.key_seq() == self.transfers.key_seq().take(idx as int),
                forall|a: u64|
                    #[trigger] transfers@.dom().contains(a) ==> (self.transfers@.dom().contains(a)
                        && transfers@[a].wf() && transfers@[a]@ == self.transfers@[a]@),
            decreases n - idx,
        {
            let k = self.transfers.key_at(idx);
            let v = self.transfers.val_at(idx);
            let duplicated = v.clone_transfers();
            proof {
                self.transfers.lemma_view();
                transfers.lemma_view();
                assert forall|j: int| 0 <= j < transfers.key_seq().len() implies
                    transfers.key_seq()[j] < k by {
                    assert(transfers.key_seq()[j] == self.transfers.key_seq()[j]);
                }
                assert(self.transfers@.dom().contains(k));
            }
            transfers.append_entry(k, duplicated);
            proof {
                assert(transfers.key_seq() =~= self.transfers.key_seq().take(idx as int + 1));
            }
            idx = idx + 1;
        }
        proof {
            assert(self.transfers.key_seq().take(n as int) =~= self.transfers.key_seq());
            transfers.lemma_view();
            self.transfers.lemma_view();
            assert(map_state(transfers@) =~= map_state(self.transfers@)) by {
                assert forall|a: u64| self.transfers@.dom().contains(a) implies
                    transfers@.dom().contains(a) by {
                    assert(self.transfers.key_seq().contains(a));
                    assert(transfers.key_seq().contains(a));
                }
            }
        }
        // deep-copy the block sequence
        let mut blocks: Vec<Block> = Vec::new();
        let bn = self.blocks.len();
        let mut bi: usize = 0;
        while bi < bn
            invariant
                bi <= bn,
                bn == self.blocks@.len(),
                blocks@.len() == bi,
                forall|x: int|
                    0 <= x < bi ==> block_fields_eq(#[trigger] blocks@[x], self.blocks@[x]),
            decreases bn - bi,
        {
            let b = self.blocks[bi].clone();
            blocks.push(b);
            bi = bi + 1;
        }
        let mut node = ChainForkNode {
            transfers,
            blocks,
            root_parent_hash: self.root_parent_hash,
            root_height: self.root_height,
        };
        proof {
            assert(node.wf()) by {
                assert(forall|a: u64|
                    #[trigger] node.transfers@.dom().contains(a) ==> (node.transfers@[a].wf()
                        && !node.transfers@[a]@.is_empty()));
                assert(forall|i: int|
                    0 <= i < node.blocks@.len() ==> block_fields_eq(
                        #[trigger] node.blocks@[i],
                        self.blocks@[i],
                    ));
            }
            assert(node.state() == self.state());
        }
        // compute how many blocks the fork keeps
        let keep: usize = if height < self.root_height {
            0
        } else {
            let want: u32 = height - self.root_height;
            if want as usize >= bn {
                bn
            } else {
                (want as usize) + 1
            }
        };
        let ghost kept = self.kept_blocks(height);
        let ghost target = state_revert_blockseq(
            self.state(),
            blocks_updates(self.blocks_seq()).skip(kept),
        );
        let ghost can_target = state_can_revert_blockseq(
            self.state(),
            blocks_updates(self.blocks_seq()).skip(kept),
        );
        proof {
            assert(keep == kept);
            assert(blocks_updates(node.blocks_seq()).skip(kept) =~= blocks_updates(
                self.blocks_seq(),
            ).skip(kept));
        }
        // retract the copy's tip down to the kept height
        while node.blocks.len() > keep
            invariant
                node.wf(),
                keep <= node.blocks_seq().len(),
                node.blocks_seq().len() <= self.blocks_seq().len(),
                self.wf(),
                kept == keep,
                forall|i: int|
                    0 <= i < node.blocks_seq().len() ==> block_fields_eq(
                        #[trigger] node.blocks_seq()[i],
                        self.blocks_seq()[i],
                    ),
                node.spec_root_parent_hash() == self.spec_root_parent_hash(),
                node.spec_root_height() == self.spec_root_height(),
                kept == self.kept_blocks(height),
                target == state_revert_blockseq(
                    node.state(),
                    blocks_updates(node.blocks_seq()).skip(kept as int),
                ),
                can_target == state_can_revert_blockseq(
                    self.state(),
                    blocks_updates(self.blocks_seq()).skip(kept as int),
                ),
                can_target == state_can_revert_blockseq(
                    node.state(),
                    blocks_updates(node.blocks_seq()).skip(kept as int),
                ),
            decreases node.blocks_seq().len(),
        {
            let ghost pre = node;
            let ghost vseq = blocks_updates(pre.blocks_seq()).skip(kept as int);
            proof {
                assert(vseq.len() > 0);
                assert(vseq.last() == pre.blocks_seq().last().updates@);
            }
            match node.retract_tip() {
                Ok(_) => {
                    proof {
                        assert(vseq.drop_last() =~= blocks_updates(node.blocks_seq()).skip(
                            kept as int,
                        ));
                        assert(state_can_revert_blockseq(pre.state(), vseq)
                            == state_can_revert_blockseq(
                            node.state(),
                            blocks_updates(node.blocks_seq()).skip(kept as int),
                        ));
                    }
                },
                Err(f) => {
                    proof {
                        assert(!state_can_revert_seq_rev(pre.state(), vseq.last()));
                        assert(!state_can_revert_blockseq(pre.state(), vseq));
                    }
                    return Err(f);
                },
            }
        }
        proof {
            assert(blocks_updates(node.blocks_seq()).skip(kept as int) =~= Seq::<
                Seq<AddressedUpdate>,
            >::empty());
            assert(can_target);
        }
        Ok(node)
    }
}

} // verus!
