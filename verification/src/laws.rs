//! The laws of the update protocol: apply and revert are exact inverses on
//! every field, balances are conserved, transaction multiplicities count
//! update events, and the ordered collections iterate in chain order.

use vstd::prelude::*;
use crate::amount::amount_in_range;
use crate::location::{lemma_out_key_order, out_loc_before, OutputLocation};
use crate::transfers::{
    can_apply, can_revert, tv_apply, tv_revert, TransferUpdate, TransfersView,
    TransparentTransfers,
};

verus! {

/// The state after applying every update of `us`, oldest first.
pub open spec fn tv_apply_seq(t: TransfersView, us: Seq<TransferUpdate>) -> TransfersView
    decreases us.len(),
{
    if us.len() == 0 {
        t
    } else {
        tv_apply(tv_apply_seq(t, us.drop_last()), us.last())
    }
}

/// Every update of `us`, applied in order from `t`, is permitted.
pub open spec fn can_apply_seq(t: TransfersView, us: Seq<TransferUpdate>) -> bool
    decreases us.len(),
{
    us.len() == 0 || (can_apply_seq(t, us.drop_last()) && can_apply(
        tv_apply_seq(t, us.drop_last()),
        us.last(),
    ))
}

/// The state after reverting every update of `us`, newest first.
pub open spec fn tv_revert_seq_rev(t: TransfersView, us: Seq<TransferUpdate>) -> TransfersView
    decreases us.len(),
{
    if us.len() == 0 {
        t
    } else {
        tv_revert_seq_rev(tv_revert(t, us.last()), us.drop_last())
    }
}

/// Every update of `us`, reverted newest first from `t`, finds what it
/// expects.
pub open spec fn can_revert_seq_rev(t: TransfersView, us: Seq<TransferUpdate>) -> bool
    decreases us.len(),
{
    us.len() == 0 || (can_revert(t, us.last()) && can_revert_seq_rev(
        tv_revert(t, us.last()),
        us.drop_last(),
    ))
}

/// All updates of a sequence are well formed.
pub open spec fn updates_wf(us: Seq<TransferUpdate>) -> bool {
    forall|i: int| 0 <= i < us.len() ==> (#[trigger] us[i]).wf()
}

/// The signed sum of the balance deltas of `us`.
pub open spec fn total_delta(us: Seq<TransferUpdate>) -> int
    decreases us.len(),
{
    if us.len() == 0 {
        0
    } else {
        total_delta(us.drop_last()) + us.last().delta()
    }
}

/// Every update of `us` is an output creation.
pub open spec fn creations_only(us: Seq<TransferUpdate>) -> bool {
    forall|i: int| 0 <= i < us.len() ==> (#[trigger] us[i]) is Creation
}

/// One permitted apply step is exactly inverted by one revert step: the
/// revert is itself permitted and restores every field of the prior state.
pub proof fn lemma_apply_then_revert(t: TransfersView, u: TransferUpdate)
    requires
        amount_in_range(t.balance),
        u.wf(),
        can_apply(t, u),
    ensures
        amount_in_range(tv_apply(t, u).balance),
        can_revert(tv_apply(t, u), u),
        tv_revert(tv_apply(t, u), u) == t,
{
    match u {
        TransferUpdate::Creation(c) => {
            assert(tv_revert(tv_apply(t, u), u) =~= t);
        },
        TransferUpdate::Spend(s) => {
            assert(tv_revert(tv_apply(t, u), u) =~= t);
        },
    }
}

/// Apply/revert inverse law: applying any sequence of creation and spend
/// updates and then reverting it in reverse order restores the exact prior
/// state of every field, and each revert along the way finds what it
/// expects — by construction a revert of applied history has no failure
/// path.
pub proof fn lemma_apply_revert_inverse(t: TransfersView, us: Seq<TransferUpdate>)
    requires
        amount_in_range(t.balance),
        updates_wf(us),
        can_apply_seq(t, us),
    ensures
        amount_in_range(tv_apply_seq(t, us).balance),
        can_revert_seq_rev(tv_apply_seq(t, us), us),
        tv_revert_seq_rev(tv_apply_seq(t, us), us) == t,
    decreases us.len(),
{
    if us.len() > 0 {
        let prev = tv_apply_seq(t, us.drop_last());
        assert(updates_wf(us.drop_last())) by {
            assert(forall|i: int|
                0 <= i < us.drop_last().len() ==> us.drop_last()[i] == us[i]);
        }
        lemma_apply_revert_inverse(t, us.drop_last());
        assert(us.last().wf());
        lemma_apply_then_revert(prev, us.last());
    }
}

/// Balance conservation: applying a sequence of updates moves the balance by
/// exactly the signed sum of their deltas; in particular, a chain built
/// purely of creations totalling value `V` carries balance `V` over an empty
/// start.
pub proof fn lemma_balance_conservation(t: TransfersView, us: Seq<TransferUpdate>)
    requires
        can_apply_seq(t, us),
    ensures
        tv_apply_seq(t, us).balance == t.balance + total_delta(us),
    decreases us.len(),
{
    if us.len() > 0 {
        lemma_balance_conservation(t, us.drop_last());
    }
}

/// Reverting any one creation of an applied, creations-only sequence leaves
/// the balance at the total applied value minus the reverted output's value.
pub proof fn lemma_balance_after_one_revert(t: TransfersView, us: Seq<TransferUpdate>, i: int)
    requires
        can_apply_seq(t, us),
        0 <= i < us.len(),
    ensures
        tv_revert(tv_apply_seq(t, us), us[i]).balance == t.balance + total_delta(us)
            - us[i].delta(),
{
    lemma_balance_conservation(t, us);
}

/// Multiset multiplicity: two update events with the same transaction hash
/// raise that hash's multiplicity to two; reverting one leaves one;
/// reverting both leaves none.
pub proof fn lemma_tx_id_multiplicity(t: TransfersView, u1: TransferUpdate, u2: TransferUpdate)
    requires
        u1.tx_hash() == u2.tx_hash(),
        t.tx_ids.count(u1.tx_hash()) == 0,
    ensures
        tv_apply(tv_apply(t, u1), u2).tx_ids.count(u1.tx_hash()) == 2,
        tv_revert(tv_apply(tv_apply(t, u1), u2), u2).tx_ids.count(u1.tx_hash()) == 1,
        tv_revert(tv_revert(tv_apply(tv_apply(t, u1), u2), u2), u1).tx_ids.count(u1.tx_hash())
            == 0,
{
}

/// Chain-order output for created outputs: entries iterate in exactly chain
/// order — height, then transaction index, then output index — regardless of
/// the insertion sequence.
pub proof fn lemma_created_chain_order(
    t: TransparentTransfers,
    i: int,
    j: int,
    a: OutputLocation,
    b: OutputLocation,
)
    requires
        t.wf(),
        0 <= i < j < t.created_key_seq().len(),
        a.spec_key() == t.created_key_seq()[i],
        b.spec_key() == t.created_key_seq()[j],
    ensures
        out_loc_before(a, b),
{
    t.lemma_key_seqs();
    lemma_out_key_order(a, b);
}

/// Chain-order output for spent outputs: locations iterate in exactly chain
/// order regardless of the insertion sequence.
pub proof fn lemma_spent_chain_order(
    t: TransparentTransfers,
    i: int,
    j: int,
    a: OutputLocation,
    b: OutputLocation,
)
    requires
        t.wf(),
        0 <= i < j < t.spent_key_seq().len(),
        a.spec_key() == t.spent_key_seq()[i],
        b.spec_key() == t.spent_key_seq()[j],
    ensures
        out_loc_before(a, b),
{
    t.lemma_key_seqs();
    lemma_out_key_order(a, b);
}

} // verus!
