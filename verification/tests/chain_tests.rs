use chain_index::amount::{Amount, MAX_MONEY};
use chain_index::chain::{AddressedUpdate, Block, ChainForkNode};
use chain_index::errors::{ApplyError, CommitError, ValidateContextError};
use chain_index::forkset::ForkSet;
use chain_index::location::OutputLocation;
use chain_index::response::Response;
use chain_index::transfers::{
    CreatedUtxoUpdate, Output, SpentUtxoUpdate, TransferUpdate,
};

fn amount(v: i64) -> Amount {
    Amount::new(v).expect("amount in range")
}

fn addressed_creation(addr: u64, tx: u64, h: u32, ti: u16, oi: u16, v: i64) -> AddressedUpdate {
    AddressedUpdate {
        address: addr,
        update: TransferUpdate::Creation(CreatedUtxoUpdate {
            creating_tx_hash: tx,
            location: OutputLocation { height: h, tx_index: ti, output_index: oi },
            output: Output { value: amount(v) },
        }),
    }
}

fn addressed_spend(addr: u64, tx: u64, h: u32, ti: u16, oi: u16, v: i64) -> AddressedUpdate {
    AddressedUpdate {
        address: addr,
        update: TransferUpdate::Spend(SpentUtxoUpdate {
            spending_tx_hash: tx,
            spent_location: OutputLocation { height: h, tx_index: ti, output_index: oi },
            spent_output: Output { value: amount(v) },
        }),
    }
}

fn block(hash: u64, parent: u64, height: u32, updates: Vec<AddressedUpdate>) -> Block {
    Block { hash, parent_hash: parent, height, updates }
}

const ADDR_A: u64 = 1001;
const ADDR_B: u64 = 1002;
const FINALIZED: u64 = 99;

#[test]
fn fork_isolation_leaves_the_original_untouched() {
    let mut original = ChainForkNode::new(FINALIZED, 1);
    original
        .extend(block(1, FINALIZED, 1, vec![addressed_creation(ADDR_A, 11, 1, 0, 0, 50)]))
        .expect("extend succeeds");
    original
        .extend(block(2, 1, 2, vec![addressed_creation(ADDR_A, 12, 2, 0, 0, 20)]))
        .expect("extend succeeds");

    let mut fork = original.fork_at(1).expect("fork succeeds");
    assert_eq!(fork.len(), 1);
    // the fork takes a different block at height 2
    fork.extend(block(3, 1, 2, vec![addressed_spend(ADDR_A, 13, 1, 0, 0, 50)]))
        .expect("extend succeeds");

    // the original chain's index for the address is byte-for-byte unaffected
    let t = original.address_transfers(ADDR_A).expect("address is present");
    assert_eq!(t.balance().zatoshis(), 70);
    assert_eq!(t.created_utxos().len(), 2);
    assert_eq!(t.spent_utxos().len(), 0);
    assert_eq!(t.tx_id_count(13), 0);
    // while the fork sees its own history
    let f = fork.address_transfers(ADDR_A).expect("address is present");
    assert_eq!(f.balance().zatoshis(), 0);
    assert_eq!(f.spent_utxos().len(), 1);
}

#[test]
fn end_to_end_receive_spend_change_and_unwind() {
    let mut chain = ChainForkNode::new(FINALIZED, 1);
    // block 1: transaction 21 pays the address 50
    chain
        .extend(block(1, FINALIZED, 1, vec![addressed_creation(ADDR_A, 21, 1, 0, 0, 50)]))
        .expect("extend succeeds");
    // block 2: transaction 22 spends the whole 50 and pays 30 change back
    chain
        .extend(block(
            2,
            1,
            2,
            vec![
                addressed_spend(ADDR_A, 22, 1, 0, 0, 50),
                addressed_creation(ADDR_A, 22, 2, 0, 0, 30),
            ],
        ))
        .expect("extend succeeds");

    let t = chain.address_transfers(ADDR_A).expect("address is present");
    assert_eq!(t.balance().zatoshis(), 30);
    assert_eq!(t.created_utxos().len(), 2);
    assert_eq!(t.spent_utxos().len(), 1);
    assert_eq!(t.tx_id_count(21), 1);
    // the spend and the change output are two update events of transaction 22
    assert_eq!(t.tx_id_count(22), 2);

    // unwinding block 2 then block 1 returns the address to the absent state
    let b2 = chain.retract_tip().expect("revert succeeds");
    assert_eq!(b2.hash, 2);
    let t = chain.address_transfers(ADDR_A).expect("address is present");
    assert_eq!(t.balance().zatoshis(), 50);
    let b1 = chain.retract_tip().expect("revert succeeds");
    assert_eq!(b1.hash, 1);
    assert!(chain.address_transfers(ADDR_A).is_none());
    assert_eq!(chain.len(), 0);
}

#[test]
fn rejected_block_leaves_the_chain_exactly_as_it_was() {
    let mut chain = ChainForkNode::new(FINALIZED, 1);
    chain
        .extend(block(1, FINALIZED, 1, vec![addressed_creation(ADDR_A, 31, 1, 0, 0, 40)]))
        .expect("extend succeeds");
    // the second update of this block overflows the balance domain, so the
    // first update must be rolled back before the error surfaces
    let r = chain.extend(block(
        2,
        1,
        2,
        vec![
            addressed_creation(ADDR_B, 32, 2, 0, 0, 7),
            addressed_creation(ADDR_A, 32, 2, 0, 1, MAX_MONEY),
        ],
    ));
    assert_eq!(
        r,
        Err(ApplyError::Validation(ValidateContextError::AddressBalanceOutOfRange))
    );
    assert_eq!(chain.len(), 1);
    assert!(chain.address_transfers(ADDR_B).is_none());
    let t = chain.address_transfers(ADDR_A).expect("address is present");
    assert_eq!(t.balance().zatoshis(), 40);
    assert_eq!(t.tx_id_count(32), 0);
}

#[test]
fn retract_root_slides_the_history_window() {
    let mut chain = ChainForkNode::new(FINALIZED, 1);
    chain
        .extend(block(1, FINALIZED, 1, vec![addressed_creation(ADDR_A, 41, 1, 0, 0, 10)]))
        .expect("extend succeeds");
    chain
        .extend(block(2, 1, 2, vec![addressed_creation(ADDR_A, 42, 2, 0, 0, 25)]))
        .expect("extend succeeds");
    let promoted = chain.retract_root().expect("root revert succeeds");
    assert_eq!(promoted.hash, 1);
    assert_eq!(chain.len(), 1);
    assert_eq!(chain.tip_hash(), 2);
    let t = chain.address_transfers(ADDR_A).expect("address is present");
    assert_eq!(t.balance().zatoshis(), 25);
    assert_eq!(t.tx_id_count(41), 0);
    assert_eq!(t.tx_id_count(42), 1);
}

#[test]
fn fork_set_routes_extends_forks_and_finalizes() {
    let mut set = ForkSet::new(FINALIZED, 1, 10, 2);
    assert_eq!(set.tip(), Response::Tip(None));

    // a chain growing straight from the finalized tip
    let r = set
        .submit(block(1, FINALIZED, 1, vec![addressed_creation(ADDR_A, 51, 1, 0, 0, 10)]))
        .expect("committed");
    assert_eq!(r, Response::Committed(1));
    // extend it twice
    set.submit(block(2, 1, 2, vec![addressed_creation(ADDR_A, 52, 2, 0, 0, 10)]))
        .expect("committed");
    set.submit(block(3, 2, 3, vec![addressed_creation(ADDR_A, 53, 3, 0, 0, 10)]))
        .expect("committed");
    assert_eq!(set.tip(), Response::Tip(Some((3, 3))));

    // a competing block forking from the interior at height 1
    set.submit(block(4, 1, 2, vec![addressed_creation(ADDR_B, 54, 2, 0, 0, 5)]))
        .expect("committed");
    assert_eq!(set.chain_count(), 2);
    // the longer chain stays best
    assert_eq!(set.tip(), Response::Tip(Some((3, 3))));

    // unknown parents and wrong heights are rejected
    assert_eq!(
        set.submit(block(9, 777, 4, vec![])),
        Err(CommitError::UnknownParent)
    );
    assert_eq!(set.submit(block(9, 3, 9, vec![])), Err(CommitError::WrongHeight));

    // the best chain is past the confirmation threshold: promote its root;
    // the fork still holds the same root block, so it slides too
    let promoted = set.finalize_root().expect("no fault").expect("a root is ready");
    assert_eq!(promoted.hash, 1);
    assert_eq!(set.chain_count(), 2);
    assert_eq!(set.tip(), Response::Tip(Some((3, 3))));

    // losing forks are dropped wholesale once the race is beyond the limit
    let mut set2 = ForkSet::new(FINALIZED, 1, 1, 50);
    set2.submit(block(1, FINALIZED, 1, vec![addressed_creation(ADDR_A, 61, 1, 0, 0, 1)]))
        .expect("committed");
    set2.submit(block(5, FINALIZED, 1, vec![addressed_creation(ADDR_B, 62, 1, 0, 0, 2)]))
        .expect("committed");
    assert_eq!(set2.chain_count(), 2);
    // no chain is past the reorganization limit yet, and none is past the
    // confirmation threshold
    assert!(!set2.prune_losers());
    assert_eq!(set2.finalize_root(), Ok(None));
    set2.submit(block(6, 1, 2, vec![addressed_creation(ADDR_A, 63, 2, 0, 0, 3)]))
        .expect("committed");
    assert!(set2.prune_losers());
    assert_eq!(set2.chain_count(), 1);
    assert_eq!(set2.tip(), Response::Tip(Some((2, 6))));
}

#[test]
fn depth_counts_confirmations_on_the_best_chain() {
    let mut set = ForkSet::new(FINALIZED, 1, 10, 100);
    set.submit(block(1, FINALIZED, 1, vec![addressed_creation(ADDR_A, 71, 1, 0, 0, 1)]))
        .expect("committed");
    set.submit(block(2, 1, 2, vec![addressed_creation(ADDR_A, 72, 2, 0, 0, 1)]))
        .expect("committed");
    set.submit(block(3, 2, 3, vec![addressed_creation(ADDR_A, 73, 3, 0, 0, 1)]))
        .expect("committed");
    assert_eq!(set.depth(3), Response::Depth(Some(0)));
    assert_eq!(set.depth(2), Response::Depth(Some(1)));
    assert_eq!(set.depth(1), Response::Depth(Some(2)));
    assert_eq!(set.depth(777), Response::Depth(None));
}
