use chain_index::amount::{Amount, MAX_MONEY};
use chain_index::errors::{ApplyError, StructuralFault, ValidateContextError};
use chain_index::location::{transaction_location, OutputLocation, TransactionLocation};
use chain_index::omap::OrderedMap;
use chain_index::transfers::{
    CreatedUtxoUpdate, Output, RevertPosition, SpentUtxoUpdate, TransferUpdate,
    TransparentTransfers,
};

fn amount(v: i64) -> Amount {
    Amount::new(v).expect("amount in range")
}

fn creation(tx: u64, h: u32, ti: u16, oi: u16, v: i64) -> TransferUpdate {
    TransferUpdate::Creation(CreatedUtxoUpdate {
        creating_tx_hash: tx,
        location: OutputLocation { height: h, tx_index: ti, output_index: oi },
        output: Output { value: amount(v) },
    })
}

fn spend(tx: u64, h: u32, ti: u16, oi: u16, v: i64) -> TransferUpdate {
    TransferUpdate::Spend(SpentUtxoUpdate {
        spending_tx_hash: tx,
        spent_location: OutputLocation { height: h, tx_index: ti, output_index: oi },
        spent_output: Output { value: amount(v) },
    })
}

#[test]
fn apply_revert_restores_exact_state() {
    // the inverse law on a mixed creation/spend sequence
    let updates = vec![
        creation(11, 1, 0, 0, 50),
        creation(12, 1, 1, 0, 20),
        spend(13, 1, 0, 0, 50),
        creation(13, 2, 0, 1, 30),
    ];
    let before = TransparentTransfers::new();
    let mut t = TransparentTransfers::new();
    for u in &updates {
        t.update_chain_tip_with(u).expect("apply succeeds");
    }
    assert_eq!(t.balance().zatoshis(), 50 + 20 - 50 + 30);
    for u in updates.iter().rev() {
        t.revert_chain_with(u, RevertPosition::Tip).expect("revert succeeds");
    }
    assert_eq!(t, before);
    assert!(t.is_empty());
}

#[test]
fn duplicate_creation_is_a_fatal_fault() {
    let mut t = TransparentTransfers::new();
    t.update_chain_tip_with(&creation(11, 1, 0, 0, 50)).expect("first apply succeeds");
    let r = t.update_chain_tip_with(&creation(12, 1, 0, 0, 60));
    assert_eq!(r, Err(ApplyError::Fault(StructuralFault::DuplicateCreatedUtxo)));
    // never a silent overwrite: the index is untouched
    assert_eq!(t.balance().zatoshis(), 50);
    assert_eq!(t.created_utxos().len(), 1);
}

#[test]
fn duplicate_spend_is_a_fatal_fault() {
    let mut t = TransparentTransfers::new();
    t.update_chain_tip_with(&spend(11, 1, 0, 0, 5)).expect("first apply succeeds");
    let r = t.update_chain_tip_with(&spend(12, 1, 0, 0, 5));
    assert_eq!(r, Err(ApplyError::Fault(StructuralFault::DuplicateSpentUtxo)));
    assert_eq!(t.balance().zatoshis(), -5);
}

#[test]
fn balance_conservation_over_creations() {
    let mut t = TransparentTransfers::new();
    let values = [10i64, 20, 30, 40];
    for (i, v) in values.iter().enumerate() {
        t.update_chain_tip_with(&creation(100 + i as u64, 1, i as u16, 0, *v))
            .expect("apply succeeds");
    }
    assert_eq!(t.balance().zatoshis(), 100);
    // reverting one output leaves the total minus exactly its value
    t.revert_chain_with(&creation(101, 1, 1, 0, 20), RevertPosition::Tip)
        .expect("revert succeeds");
    assert_eq!(t.balance().zatoshis(), 80);
}

#[test]
fn tx_id_multiplicity_counts_update_events() {
    let mut t = TransparentTransfers::new();
    let u1 = creation(77, 1, 0, 0, 10);
    let u2 = creation(77, 1, 0, 1, 15);
    t.update_chain_tip_with(&u1).expect("apply succeeds");
    t.update_chain_tip_with(&u2).expect("apply succeeds");
    assert_eq!(t.tx_id_count(77), 2);
    t.revert_chain_with(&u2, RevertPosition::Tip).expect("revert succeeds");
    assert_eq!(t.tx_id_count(77), 1);
    t.revert_chain_with(&u1, RevertPosition::Tip).expect("revert succeeds");
    assert_eq!(t.tx_id_count(77), 0);
    assert!(t.is_empty());
}

#[test]
fn created_and_spent_iterate_in_chain_order() {
    // insert out of chain order; iteration comes back sorted by
    // height, then transaction index, then output index
    let mut t = TransparentTransfers::new();
    t.update_chain_tip_with(&creation(1, 2, 0, 0, 1)).expect("apply succeeds");
    t.update_chain_tip_with(&creation(2, 1, 1, 0, 1)).expect("apply succeeds");
    t.update_chain_tip_with(&creation(3, 1, 0, 7, 1)).expect("apply succeeds");
    t.update_chain_tip_with(&creation(4, 1, 0, 2, 1)).expect("apply succeeds");
    let created = t.created_utxos();
    assert_eq!(created.len(), 4);
    let expected = [
        OutputLocation { height: 1, tx_index: 0, output_index: 2 },
        OutputLocation { height: 1, tx_index: 0, output_index: 7 },
        OutputLocation { height: 1, tx_index: 1, output_index: 0 },
        OutputLocation { height: 2, tx_index: 0, output_index: 0 },
    ];
    for (i, loc) in expected.iter().enumerate() {
        assert_eq!(created.key_at(i), loc.key());
    }
    let mut s = TransparentTransfers::new();
    s.update_chain_tip_with(&spend(1, 3, 0, 0, 1)).expect("apply succeeds");
    s.update_chain_tip_with(&spend(2, 2, 5, 1, 1)).expect("apply succeeds");
    let spent = s.spent_utxos();
    assert_eq!(spent.len(), 2);
    assert!(spent.key_at(0) < spent.key_at(1));
    assert_eq!(
        spent.key_at(0),
        OutputLocation { height: 2, tx_index: 5, output_index: 1 }.key()
    );
}

#[test]
fn balance_out_of_range_is_a_validation_error() {
    let mut t = TransparentTransfers::new();
    t.update_chain_tip_with(&creation(1, 1, 0, 0, MAX_MONEY)).expect("apply succeeds");
    let r = t.update_chain_tip_with(&creation(2, 1, 1, 0, 1));
    assert_eq!(
        r,
        Err(ApplyError::Validation(ValidateContextError::AddressBalanceOutOfRange))
    );
    // the rejected update left nothing behind
    assert_eq!(t.balance().zatoshis(), MAX_MONEY);
    assert_eq!(t.created_utxos().len(), 1);
    assert_eq!(t.tx_id_count(2), 0);
}

#[test]
fn revert_of_missing_entries_reports_the_fault() {
    let mut t = TransparentTransfers::new();
    assert_eq!(
        t.revert_chain_with(&creation(1, 1, 0, 0, 5), RevertPosition::Tip),
        Err(StructuralFault::MissingCreatedUtxo)
    );
    assert_eq!(
        t.revert_chain_with(&spend(1, 1, 0, 0, 5), RevertPosition::Root),
        Err(StructuralFault::MissingSpentUtxo)
    );
    assert!(t.is_empty());
}

#[test]
fn amount_arithmetic_respects_the_domain() {
    let a = amount(MAX_MONEY);
    assert_eq!(
        a.checked_add(amount(1)),
        Err(ValidateContextError::AddressBalanceOutOfRange)
    );
    assert_eq!(
        amount(-MAX_MONEY).checked_sub(amount(1)),
        Err(ValidateContextError::AddressBalanceOutOfRange)
    );
    assert_eq!(a.checked_sub(amount(1)).unwrap().zatoshis(), MAX_MONEY - 1);
    assert!(Amount::new(MAX_MONEY + 1).is_err());
    assert_eq!(Amount::zero().zatoshis(), 0);
}

#[test]
fn location_keys_pack_in_chain_order() {
    let a = OutputLocation { height: 1, tx_index: 2, output_index: 3 };
    assert_eq!(a.key(), (1u64 << 32) | (2u64 << 16) | 3);
    let t = TransactionLocation { height: 1, index: 2 };
    assert_eq!(t.key(), (1u64 << 16) | 2);
    let owner = transaction_location(a);
    assert_eq!(owner, TransactionLocation { height: 1, index: 2 });
    let b = OutputLocation { height: 1, tx_index: 3, output_index: 0 };
    assert!(a.key() < b.key());
    let c = OutputLocation { height: 2, tx_index: 0, output_index: 0 };
    assert!(b.key() < c.key());
}

#[test]
fn ordered_map_keeps_keys_sorted_and_unique() {
    let mut m: OrderedMap<u64> = OrderedMap::new();
    assert!(m.is_empty());
    assert_eq!(m.insert(30, 300), None);
    assert_eq!(m.insert(10, 100), None);
    assert_eq!(m.insert(20, 200), None);
    assert_eq!(m.insert(20, 201), Some(200));
    assert_eq!(m.len(), 3);
    assert_eq!(m.key_at(0), 10);
    assert_eq!(m.key_at(1), 20);
    assert_eq!(m.key_at(2), 30);
    assert_eq!(m.get(20), Some(&201));
    assert_eq!(m.remove(10), Some(100));
    assert_eq!(m.remove(10), None);
    assert!(m.contains_key(30));
    assert!(!m.contains_key(10));
}

#[test]
fn tx_ids_come_back_in_chain_order() {
    let mut t = TransparentTransfers::new();
    // two events of transaction 9 (later block), one of transaction 8
    t.update_chain_tip_with(&creation(9, 5, 0, 0, 10)).expect("apply succeeds");
    t.update_chain_tip_with(&creation(9, 5, 0, 1, 10)).expect("apply succeeds");
    t.update_chain_tip_with(&creation(8, 3, 1, 0, 10)).expect("apply succeeds");
    let mut by_hash: OrderedMap<TransactionLocation> = OrderedMap::new();
    by_hash.insert(9, TransactionLocation { height: 5, index: 0 });
    by_hash.insert(8, TransactionLocation { height: 3, index: 1 });
    let ids = t.tx_ids(&by_hash);
    assert_eq!(ids.len(), 2);
    // chain order: transaction 8 (height 3) before transaction 9 (height 5)
    assert_eq!(ids.key_at(0), TransactionLocation { height: 3, index: 1 }.key());
    assert_eq!(ids.get(ids.key_at(0)), Some(&8));
    assert_eq!(ids.key_at(1), TransactionLocation { height: 5, index: 0 }.key());
    assert_eq!(ids.get(ids.key_at(1)), Some(&9));
}

#[test]
fn revert_with_an_unrecorded_tx_hash_reports_missing_tx_id() {
    let mut t = TransparentTransfers::new();
    t.update_chain_tip_with(&creation(7, 1, 0, 0, 10)).expect("apply succeeds");
    // the location exists, but transaction 8 never touched the address
    let r = t.revert_chain_with(&creation(8, 1, 0, 0, 10), RevertPosition::Tip);
    assert_eq!(r, Err(StructuralFault::MissingTxId));
    assert_eq!(t.balance().zatoshis(), 10);
}

#[test]
fn revert_leaving_the_amount_domain_reports_the_fault() {
    let mut t = TransparentTransfers::new();
    t.update_chain_tip_with(&spend(7, 1, 0, 0, MAX_MONEY)).expect("apply succeeds");
    t.update_chain_tip_with(&creation(9, 2, 0, 0, 0)).expect("apply succeeds");
    // undoing a creation of value 1 would take the balance below the domain
    let r = t.revert_chain_with(&creation(9, 2, 0, 0, 1), RevertPosition::Root);
    assert_eq!(r, Err(StructuralFault::BalanceOutOfRangeOnRevert));
    assert_eq!(t.balance().zatoshis(), -MAX_MONEY);
}
