use katana_core::backend::{Backend, GenesisError, Handled, SealError};
use katana_core::block::BlockId;
use katana_core::context::TimestampError;
use katana_core::felt::Felt;
use katana_core::ledger::BackendConfig;
use katana_core::state::{ClassDefinition, CompiledClass, StateDiff, StorageSlot};
use katana_core::traits::{BlockProvider, ReceiptProvider, StateProvider, TransactionProvider};
use katana_core::transaction::{
    ExecutedTransaction, ExecutionOutcome, ExecutionOutput, Receipt, RejectReason, Transaction,
    TransactionStatus,
};

const GENESIS_TIMESTAMP: u64 = 1_700_000_000;
const FEE_TOKEN: u64 = 0x49d3;
const ACCOUNT_CLASS: u64 = 0x4d07;
const INITIAL_BALANCE: u64 = 0x3635_c9ad_c5de_a000;

fn account(index: u64) -> Felt {
    Felt::from_u64(0xacc0 + index)
}

fn balance_slot(owner: Felt) -> StorageSlot {
    StorageSlot { address: Felt::from_u64(FEE_TOKEN), key: owner }
}

fn receipt(hash: Felt) -> Receipt {
    Receipt {
        transaction_hash: hash,
        actual_fee: 0,
        gas_consumed: 0,
        events: Vec::new(),
        revert_reason: None,
    }
}

fn reverted(hash: Felt, reason: &str) -> ExecutionOutcome {
    ExecutionOutcome::Reverted(Receipt {
        transaction_hash: hash,
        actual_fee: 0,
        gas_consumed: 0,
        events: Vec::new(),
        revert_reason: Some(reason.to_string()),
    })
}

fn transaction(hash: u64, sender: Felt, nonce: u64) -> Transaction {
    Transaction {
        hash: Felt::from_u64(hash),
        sender,
        calldata: Vec::new(),
        nonce: Felt::from_u64(nonce),
        max_fee: 0,
    }
}

fn executed(hash: u64, state_diff: StateDiff, declared_class: Option<ClassDefinition>) -> ExecutedTransaction {
    let hash = Felt::from_u64(hash);
    ExecutedTransaction {
        transaction: Transaction {
            hash,
            sender: Felt::zero(),
            calldata: Vec::new(),
            nonce: Felt::zero(),
            max_fee: 0,
        },
        output: ExecutionOutput { state_diff, declared_class, receipt: receipt(hash) },
    }
}

/// Declares the account class and the fee token, and deploys two funded
/// accounts, each of which has used its first nonce.
fn bootstrap() -> Vec<ExecutedTransaction> {
    let mut declare_account = StateDiff::new();
    declare_account.declared_classes.push((Felt::from_u64(ACCOUNT_CLASS), Felt::from_u64(0xca5a)));
    let mut deploy_token = StateDiff::new();
    deploy_token.deployed_contracts.push((Felt::from_u64(FEE_TOKEN), Felt::from_u64(0xe2c2)));
    let mut items = vec![
        executed(
            0x1,
            declare_account,
            Some(ClassDefinition {
                class_hash: Felt::from_u64(ACCOUNT_CLASS),
                class: CompiledClass { bytes: vec![0xca, 0x5a] },
            }),
        ),
        executed(0x2, deploy_token, None),
    ];
    for index in 0..2 {
        let mut deploy = StateDiff::new();
        deploy.deployed_contracts.push((account(index), Felt::from_u64(ACCOUNT_CLASS)));
        deploy.nonce_updates.push((account(index), Felt::from_u64(1)));
        deploy.storage_updates.push((balance_slot(account(index)), Felt::from_u64(INITIAL_BALANCE)));
        items.push(executed(0x3 + index, deploy, None));
    }
    items
}

fn config(auto_mine: bool, allow_zero_max_fee: bool) -> BackendConfig {
    BackendConfig { auto_mine, allow_zero_max_fee, genesis_timestamp: GENESIS_TIMESTAMP, gas_price: 100 }
}

fn create_test_starknet() -> Backend {
    let mut starknet = Backend::new(config(true, true));
    starknet.generate_genesis_block(bootstrap()).unwrap();
    starknet
}

/// A transfer of `amount` from `from` to `to`, as the engine executes it.
fn transfer(hash: u64, from: Felt, to: Felt, nonce: u64, amount: u64, starknet: &Backend) -> (Transaction, ExecutionOutcome) {
    let token = Felt::from_u64(FEE_TOKEN);
    let from_balance = starknet.storage(token, from).to_u64().unwrap();
    let to_balance = starknet.storage(token, to).to_u64().unwrap();
    let mut state_diff = StateDiff::new();
    state_diff.storage_updates.push((balance_slot(from), Felt::from_u64(from_balance - amount)));
    state_diff.storage_updates.push((balance_slot(to), Felt::from_u64(to_balance + amount)));
    state_diff.nonce_updates.push((from, Felt::from_u64(nonce + 1)));
    let mut tx = transaction(hash, from, nonce);
    tx.calldata = vec![token, to, Felt::from_u64(amount), Felt::zero()];
    let outcome = ExecutionOutcome::Succeeded(ExecutionOutput {
        state_diff,
        declared_class: None,
        receipt: receipt(Felt::from_u64(hash)),
    });
    (tx, outcome)
}

#[test]
fn test_next_block_timestamp_in_past() {
    let mut starknet = create_test_starknet();
    starknet.generate_pending_block();

    let timestamp = starknet.block_context().timestamp;
    let result = starknet.set_next_block_timestamp(timestamp - 1000);
    assert_eq!(result, Err(TimestampError::Regression));
    assert_eq!(starknet.block_context().next_timestamp, None);

    starknet.generate_pending_block();
    let new_timestamp = starknet.block_context().timestamp;

    assert_eq!(new_timestamp, timestamp, "timestamp should not move back");
}

#[test]
fn test_set_next_block_timestamp_in_future() {
    let mut starknet = create_test_starknet();
    starknet.generate_pending_block();

    let timestamp = starknet.block_context().timestamp;
    starknet.set_next_block_timestamp(timestamp + 1000).unwrap();

    starknet.generate_pending_block();
    let new_timestamp = starknet.block_context().timestamp;

    assert_eq!(new_timestamp, timestamp + 1000, "timestamp should be updated");
}

#[test]
fn test_increase_next_block_timestamp() {
    let mut starknet = create_test_starknet();
    starknet.generate_pending_block();

    let timestamp = starknet.block_context().timestamp;
    starknet.increase_next_block_timestamp(1000).unwrap();

    starknet.generate_pending_block();
    let new_timestamp = starknet.block_context().timestamp;

    assert_eq!(new_timestamp, timestamp + 1000, "timestamp should be updated");
}

#[test]
fn test_creating_blocks() {
    let mut starknet = create_test_starknet();
    starknet.generate_pending_block();
    starknet.generate_latest_block().unwrap();

    assert_eq!(starknet.blocks().len(), 2);
    assert_eq!(
        starknet.block_context().block_number,
        1,
        "block context should only be updated on new pending block"
    );

    let block0 = starknet.blocks().by_number(0).unwrap();
    let block1 = starknet.blocks().by_number(1).unwrap();
    let last_block = starknet.blocks().latest().unwrap();

    assert_eq!(block0.transactions.len(), 4, "genesis block should have 4 transactions");
    assert_eq!(block0.number, 0);
    assert_eq!(block1.number, 1);
    assert_eq!(last_block.number, 1);
    assert_eq!(starknet.blocks().number_of(&block0.hash), Some(0));
    assert_eq!(starknet.blocks().number_of(&block1.hash), Some(1));
    assert_eq!(block1.parent_hash, block0.hash);
    assert_eq!(block0.parent_hash, Felt::zero());
}

#[test]
fn test_add_transaction() {
    let mut starknet = create_test_starknet();
    starknet.generate_pending_block();

    let a = account(0);
    let b = account(1);

    let (tx, outcome) = transfer(0x6969, a, b, 1, 0x99, &starknet);
    let handled = starknet.handle_transaction(tx, outcome);
    assert_eq!(handled, Handled::Sealed(1));

    let tx = starknet.transactions().get(&Felt::from_u64(0x6969));
    let block = starknet.blocks().by_number(1).unwrap();

    assert!(tx.is_some(), "transaction must be stored");
    assert_eq!(tx.unwrap().block_number, Some(1));
    assert_eq!(tx.unwrap().block_hash, Some(block.hash));
    assert!(block.transactions.get(0).is_some(), "transaction must be included in the block");
    assert_eq!(*block.transactions.get(0).unwrap(), Felt::from_u64(0x6969));
    assert_eq!(tx.unwrap().status, TransactionStatus::AcceptedOnL2);
    let at_index = starknet.transaction_by_block_and_idx(BlockId::Number(1), 0).unwrap();
    assert_eq!(at_index.transaction.hash, Felt::from_u64(0x6969));
    assert!(starknet.transaction_by_block_and_idx(BlockId::Number(1), 1).is_none());

    let token = Felt::from_u64(FEE_TOKEN);
    assert_eq!(starknet.storage(token, a), Felt::from_u64(INITIAL_BALANCE - 0x99));
    assert_eq!(starknet.storage(token, b), Felt::from_u64(INITIAL_BALANCE + 0x99));
    assert_eq!(starknet.nonce(a), Felt::from_u64(2));
    assert_eq!(starknet.nonce(b), Felt::from_u64(1));
}

#[test]
fn test_add_reverted_transaction() {
    let mut starknet = create_test_starknet();
    starknet.generate_pending_block();

    let transaction_hash = Felt::from_u64(0x1234);
    let transaction = transaction(0x1234, Felt::zero(), 0);

    let handled =
        starknet.handle_transaction(transaction, reverted(transaction_hash, "entry point not found"));
    assert_eq!(handled, Handled::Rejected(RejectReason::Reverted));

    let tx = starknet.transactions().get(&transaction_hash);

    assert_eq!(
        starknet.transactions().len(),
        5,
        "transaction must be stored even if execution fail"
    );
    assert_eq!(tx.unwrap().block_hash, None);
    assert_eq!(tx.unwrap().block_number, None);
    assert_eq!(tx.unwrap().status, TransactionStatus::Rejected);
    assert_eq!(tx.unwrap().rejection, Some(RejectReason::Reverted));
    assert_eq!(
        tx.unwrap().receipt.as_ref().unwrap().revert_reason.as_deref(),
        Some("entry point not found")
    );
    assert_eq!(starknet.blocks().len(), 1, "no new block should be created if tx failed");
    assert!(starknet.has_pending_block());
    assert_eq!(starknet.pending_block().unwrap().transactions.len(), 0);
}

#[test]
fn genesis_block_is_reachable_by_number_and_as_latest() {
    let starknet = create_test_starknet();
    assert_eq!(starknet.blocks().len(), 1);
    let genesis = starknet.blocks().by_number(0).unwrap();
    let latest = starknet.blocks().latest().unwrap();
    assert_eq!(genesis.hash, latest.hash);
    assert_eq!(genesis.number, 0);
    assert_eq!(genesis.timestamp, GENESIS_TIMESTAMP);
    assert_eq!(
        genesis.transactions,
        vec![Felt::from_u64(1), Felt::from_u64(2), Felt::from_u64(3), Felt::from_u64(4)]
    );
    assert_eq!(starknet.block_by_hash(genesis.hash).unwrap().number, 0);
    assert_eq!(starknet.block_context().block_number, 0);
    assert!(!starknet.has_pending_block());
    for hash in 1..=4u64 {
        let record = starknet.transaction_by_hash(Felt::from_u64(hash)).unwrap();
        assert_eq!(record.status, TransactionStatus::AcceptedOnL2);
        assert_eq!(record.block_number, Some(0));
        assert_eq!(record.block_hash, Some(genesis.hash));
    }
}

#[test]
fn genesis_commits_the_bootstrap_state() {
    let starknet = create_test_starknet();
    let token = Felt::from_u64(FEE_TOKEN);
    assert_eq!(starknet.storage(token, account(0)), Felt::from_u64(INITIAL_BALANCE));
    assert_eq!(starknet.storage(token, account(1)), Felt::from_u64(INITIAL_BALANCE));
    assert_eq!(starknet.nonce(account(0)), Felt::from_u64(1));
    assert_eq!(starknet.class_hash_of_contract(account(1)), Some(Felt::from_u64(ACCOUNT_CLASS)));
    assert_eq!(starknet.class_hash_of_contract(Felt::from_u64(0xdead)), None);
    assert_eq!(
        starknet.compiled_class_hash_of_class_hash(Felt::from_u64(ACCOUNT_CLASS)),
        Some(Felt::from_u64(0xca5a))
    );
    assert_eq!(starknet.class(Felt::from_u64(ACCOUNT_CLASS)).unwrap().bytes, vec![0xca, 0x5a]);
    assert!(starknet.class(Felt::from_u64(0xe2c2)).is_none());
}

#[test]
fn genesis_is_made_once() {
    let mut starknet = create_test_starknet();
    assert_eq!(starknet.generate_genesis_block(bootstrap()), Err(GenesisError::AlreadyInitialized));
    assert_eq!(starknet.blocks().len(), 1);
    assert_eq!(starknet.transactions().len(), 4);

    let mut opened = Backend::new(config(true, true));
    opened.generate_pending_block();
    assert_eq!(opened.generate_genesis_block(Vec::new()), Err(GenesisError::AlreadyInitialized));
}

#[test]
fn genesis_refuses_a_repeated_bootstrap_transaction() {
    let mut starknet = Backend::new(config(true, true));
    let mut items = bootstrap();
    items.push(executed(0x2, StateDiff::new(), None));
    assert_eq!(starknet.generate_genesis_block(items), Err(GenesisError::DuplicateTransaction));
    assert_eq!(starknet.blocks().len(), 0);
    assert_eq!(starknet.transactions().len(), 0);
    assert!(!starknet.has_pending_block());
    assert_eq!(starknet.storage(Felt::from_u64(FEE_TOKEN), account(0)), Felt::zero());
}

#[test]
fn empty_genesis_seals_an_empty_block() {
    let mut starknet = Backend::new(config(false, false));
    assert_eq!(starknet.generate_genesis_block(Vec::new()), Ok(()));
    assert_eq!(starknet.blocks().len(), 1);
    assert_eq!(starknet.blocks().latest().unwrap().transactions.len(), 0);
}

#[test]
fn transaction_with_wrong_nonce_is_rejected_before_execution() {
    let mut starknet = create_test_starknet();
    starknet.generate_pending_block();
    let (mut tx, outcome) = transfer(0x77, account(0), account(1), 1, 5, &starknet);
    tx.nonce = Felt::from_u64(0);
    assert_eq!(starknet.validate_transaction(&tx), Some(RejectReason::InvalidNonce));
    let handled = starknet.handle_transaction(tx, outcome);
    assert_eq!(handled, Handled::Rejected(RejectReason::InvalidNonce));
    let record = starknet.transaction_by_hash(Felt::from_u64(0x77)).unwrap();
    assert_eq!(record.status, TransactionStatus::Rejected);
    assert_eq!(record.rejection, Some(RejectReason::InvalidNonce));
    assert!(record.receipt.is_none());
    assert_eq!(record.block_number, None);
    assert_eq!(starknet.blocks().len(), 1);
    assert_eq!(
        starknet.storage(Felt::from_u64(FEE_TOKEN), account(0)),
        Felt::from_u64(INITIAL_BALANCE)
    );
    assert_eq!(starknet.nonce(account(0)), Felt::from_u64(1));
}

#[test]
fn transaction_without_fee_is_rejected_where_a_fee_is_asked() {
    let mut starknet = Backend::new(config(true, false));
    starknet.generate_genesis_block(bootstrap()).unwrap();
    starknet.generate_pending_block();

    let (tx, outcome) = transfer(0x78, account(0), account(1), 1, 5, &starknet);
    assert_eq!(starknet.validate_transaction(&tx), Some(RejectReason::InsufficientFee));
    assert_eq!(
        starknet.handle_transaction(tx, outcome),
        Handled::Rejected(RejectReason::InsufficientFee)
    );

    let (mut paying, outcome) = transfer(0x79, account(0), account(1), 1, 5, &starknet);
    paying.max_fee = 1;
    assert_eq!(starknet.validate_transaction(&paying), None);
    assert_eq!(starknet.handle_transaction(paying, outcome), Handled::Sealed(1));
}

#[test]
fn transaction_that_is_known_changes_nothing() {
    let mut starknet = create_test_starknet();
    starknet.generate_pending_block();
    let (tx, outcome) = transfer(0x3, account(0), account(1), 1, 5, &starknet);
    assert_eq!(starknet.handle_transaction(tx, outcome), Handled::Duplicate);
    assert_eq!(starknet.transactions().len(), 4);
    assert_eq!(starknet.blocks().len(), 1);
    assert_eq!(
        starknet.storage(Felt::from_u64(FEE_TOKEN), account(0)),
        Felt::from_u64(INITIAL_BALANCE)
    );
}

#[test]
fn manual_sealing_keeps_accepted_transactions_pending() {
    let mut starknet = Backend::new(config(false, true));
    starknet.generate_genesis_block(bootstrap()).unwrap();
    starknet.generate_pending_block();

    let (first, outcome) = transfer(0x10, account(0), account(1), 1, 7, &starknet);
    assert_eq!(starknet.handle_transaction(first, outcome), Handled::Accepted);
    let (second, outcome) = transfer(0x11, account(0), account(1), 2, 3, &starknet);
    assert_eq!(starknet.handle_transaction(second, outcome), Handled::Accepted);

    assert_eq!(starknet.blocks().len(), 1);
    let record = starknet.transaction_by_hash(Felt::from_u64(0x10)).unwrap();
    assert_eq!(record.status, TransactionStatus::AcceptedOnL2);
    assert_eq!(record.block_number, None);
    assert_eq!(record.block_hash, None);
    assert_eq!(
        starknet.pending_block().unwrap().transactions,
        vec![Felt::from_u64(0x10), Felt::from_u64(0x11)]
    );
    // The pending changes are seen at once.
    let token = Felt::from_u64(FEE_TOKEN);
    assert_eq!(starknet.storage(token, account(1)), Felt::from_u64(INITIAL_BALANCE + 10));
    assert_eq!(starknet.state().committed_storage(token, account(1)), Felt::from_u64(INITIAL_BALANCE));

    // Opening a pending block again keeps what is pending.
    starknet.generate_pending_block();
    assert_eq!(starknet.pending_block().unwrap().transactions.len(), 2);

    assert_eq!(starknet.generate_latest_block(), Ok(1));
    assert!(!starknet.has_pending_block());
    let block = starknet.blocks().by_number(1).unwrap();
    assert_eq!(block.transactions, vec![Felt::from_u64(0x10), Felt::from_u64(0x11)]);
    assert_eq!(block.state_diff.storage_updates.len(), 4);
    assert_eq!(block.state_diff.nonce_updates.len(), 2);
    let records = starknet.transactions_by_block(BlockId::Hash(block.hash));
    assert_eq!(records.len(), 2);
    assert_eq!(records[1].transaction.hash, Felt::from_u64(0x11));
    assert_eq!(records[1].block_number, Some(1));
    assert_eq!(records[1].block_hash, Some(block.hash));
    assert_eq!(starknet.storage(token, account(1)), Felt::from_u64(INITIAL_BALANCE + 10));
    assert_eq!(starknet.state().committed_storage(token, account(1)), Felt::from_u64(INITIAL_BALANCE + 10));
    assert_eq!(starknet.block_context().block_number, 1);
}

#[test]
fn storage_that_was_never_written_reads_zero() {
    let mut starknet = create_test_starknet();
    starknet.generate_pending_block();
    let token = Felt::from_u64(FEE_TOKEN);
    let stranger = Felt::from_u64(0x5747);
    assert_eq!(starknet.storage(token, stranger), Felt::zero());
    assert_eq!(starknet.nonce(stranger), Felt::zero());

    let (tx, outcome) = transfer(0x20, account(0), account(1), 1, 1, &starknet);
    assert_eq!(starknet.handle_transaction(tx, outcome), Handled::Sealed(1));
    assert_eq!(starknet.storage(token, stranger), Felt::zero());
    assert_eq!(starknet.storage(stranger, account(0)), Felt::zero());
}

#[test]
fn queued_timestamp_is_applied_once() {
    let mut starknet = create_test_starknet();
    starknet.set_next_block_timestamp(GENESIS_TIMESTAMP + 60).unwrap();
    assert_eq!(starknet.block_context().timestamp, GENESIS_TIMESTAMP);
    starknet.generate_pending_block();
    assert_eq!(starknet.block_context().timestamp, GENESIS_TIMESTAMP + 60);
    assert_eq!(starknet.block_context().next_timestamp, None);
    assert_eq!(starknet.generate_latest_block(), Ok(1));
    assert_eq!(starknet.blocks().latest().unwrap().timestamp, GENESIS_TIMESTAMP + 60);
    starknet.generate_pending_block();
    assert_eq!(starknet.block_context().timestamp, GENESIS_TIMESTAMP + 60);
}

#[test]
fn timestamp_increase_that_overflows_is_refused() {
    let mut starknet = create_test_starknet();
    assert_eq!(starknet.increase_next_block_timestamp(u64::MAX), Err(TimestampError::Overflow));
    assert_eq!(starknet.block_context().next_timestamp, None);
    assert_eq!(starknet.increase_next_block_timestamp(u64::MAX - GENESIS_TIMESTAMP), Ok(()));
    assert_eq!(starknet.block_context().next_timestamp, Some(u64::MAX));
    assert_eq!(starknet.set_next_block_timestamp(GENESIS_TIMESTAMP), Ok(()));
    assert_eq!(starknet.block_context().next_timestamp, Some(GENESIS_TIMESTAMP));
}

#[test]
fn declared_class_of_an_accepted_transaction_is_kept() {
    let mut starknet = create_test_starknet();
    starknet.generate_pending_block();
    let hash = Felt::from_u64(0x30);
    let mut state_diff = StateDiff::new();
    state_diff.nonce_updates.push((account(0), Felt::from_u64(2)));
    state_diff.declared_classes.push((Felt::from_u64(0xc1a5), Felt::from_u64(0xca51)));
    let outcome = ExecutionOutcome::Succeeded(ExecutionOutput {
        state_diff,
        declared_class: Some(ClassDefinition {
            class_hash: Felt::from_u64(0xc1a5),
            class: CompiledClass { bytes: vec![1, 2, 3] },
        }),
        receipt: receipt(hash),
    });
    assert_eq!(starknet.handle_transaction(transaction(0x30, account(0), 1), outcome), Handled::Sealed(1));
    assert_eq!(starknet.class(Felt::from_u64(0xc1a5)).unwrap().bytes, vec![1, 2, 3]);
    assert_eq!(
        starknet.compiled_class_hash_of_class_hash(Felt::from_u64(0xc1a5)),
        Some(Felt::from_u64(0xca51))
    );
    assert_eq!(starknet.receipt_by_hash(hash).unwrap().transaction_hash, hash);
    assert!(starknet.receipt_by_hash(Felt::from_u64(0x31)).is_none());
    let receipts = starknet.receipts_by_block(BlockId::Number(0));
    assert_eq!(receipts.len(), 4);
    assert_eq!(receipts[2].transaction_hash, Felt::from_u64(3));
    assert!(starknet.receipts_by_block(BlockId::Number(9)).is_empty());
}

#[test]
fn backend_keeps_its_configuration() {
    let starknet = Backend::new(config(false, true));
    assert!(!starknet.config().auto_mine);
    assert!(starknet.config().allow_zero_max_fee);
    assert_eq!(starknet.config().gas_price, 100);
    assert_eq!(starknet.block_context().timestamp, GENESIS_TIMESTAMP);
    assert_eq!(starknet.block_context().gas_price, 100);
    assert_eq!(starknet.block_context().block_number, 0);
    assert_eq!(starknet.blocks().len(), 0);
    assert!(starknet.blocks().latest().is_none());
}

#[test]
fn block_sealed_before_any_genesis_is_the_first_block() {
    let mut starknet = Backend::new(config(false, true));
    starknet.generate_pending_block();
    assert_eq!(starknet.generate_latest_block(), Ok::<u64, SealError>(0));
    assert_eq!(starknet.blocks().latest().unwrap().number, 0);
    assert_eq!(starknet.block_context().block_number, 0);
    assert_eq!(starknet.generate_genesis_block(bootstrap()), Err(GenesisError::AlreadyInitialized));
}

#[test]
fn errors_and_reasons_say_what_went_wrong() {
    assert_eq!(GenesisError::AlreadyInitialized.message(), "the chain is initialized already");
    assert_eq!(
        GenesisError::DuplicateTransaction.message(),
        "two bootstrap transactions have the same hash"
    );
    assert_eq!(SealError::HashCollision.message(), "a sealed block has the hash of the new block");
    assert_eq!(
        RejectReason::InvalidNonce.message(),
        "the nonce is not the current nonce of the sender"
    );
    assert_eq!(RejectReason::InsufficientFee.message(), "the transaction offers no fee");
    assert_eq!(RejectReason::Reverted.message(), "the execution reverted");
}
