use katana_core::backend::{Backend, Handled};
use katana_core::block::BlockId;
use katana_core::felt::Felt;
use katana_core::ledger::BackendConfig;
use katana_core::provider::BlockchainProvider;
use katana_core::state::{StateDiff, StorageSlot};
use katana_core::traits::{
    BlockProvider, ContractReader, ReceiptProvider, StateProvider, TransactionProvider,
};
use katana_core::transaction::{
    ExecutedTransaction, ExecutionOutcome, ExecutionOutput, Receipt, Transaction,
    TransactionStatus,
};

fn receipt(hash: Felt) -> Receipt {
    Receipt { transaction_hash: hash, actual_fee: 1, gas_consumed: 2, events: Vec::new(), revert_reason: None }
}

fn transaction(hash: u64, nonce: u64) -> Transaction {
    Transaction {
        hash: Felt::from_u64(hash),
        sender: Felt::from_u64(0xa),
        calldata: Vec::new(),
        nonce: Felt::from_u64(nonce),
        max_fee: 5,
    }
}

/// A chain of three blocks: a genesis block with one transaction, a block
/// with two, and an empty one. One more transaction is pending.
fn chain() -> Backend {
    let mut backend = Backend::new(BackendConfig {
        auto_mine: false,
        allow_zero_max_fee: false,
        genesis_timestamp: 100,
        gas_price: 1,
    });
    let mut deploy = StateDiff::new();
    deploy.deployed_contracts.push((Felt::from_u64(0xa), Felt::from_u64(0xc1)));
    backend
        .generate_genesis_block(vec![ExecutedTransaction {
            transaction: transaction(1, 0),
            output: ExecutionOutput {
                state_diff: deploy,
                declared_class: None,
                receipt: receipt(Felt::from_u64(1)),
            },
        }])
        .unwrap();
    backend.generate_pending_block();
    for (hash, nonce) in [(2u64, 0u64), (3, 1)] {
        let mut state_diff = StateDiff::new();
        state_diff.nonce_updates.push((Felt::from_u64(0xa), Felt::from_u64(nonce + 1)));
        state_diff.storage_updates.push((
            StorageSlot { address: Felt::from_u64(0xa), key: Felt::from_u64(hash) },
            Felt::from_u64(hash * 10),
        ));
        let outcome = ExecutionOutcome::Succeeded(ExecutionOutput {
            state_diff,
            declared_class: None,
            receipt: receipt(Felt::from_u64(hash)),
        });
        assert_eq!(backend.handle_transaction(transaction(hash, nonce), outcome), Handled::Accepted);
    }
    assert_eq!(backend.generate_latest_block(), Ok(1));
    backend.generate_pending_block();
    assert_eq!(backend.generate_latest_block(), Ok(2));
    backend.generate_pending_block();
    let mut state_diff = StateDiff::new();
    state_diff.nonce_updates.push((Felt::from_u64(0xa), Felt::from_u64(3)));
    let outcome = ExecutionOutcome::Succeeded(ExecutionOutput {
        state_diff,
        declared_class: None,
        receipt: receipt(Felt::from_u64(4)),
    });
    assert_eq!(backend.handle_transaction(transaction(4, 2), outcome), Handled::Accepted);
    backend
}

fn numbers(found: Vec<&katana_core::block::Block>) -> Vec<u64> {
    found.iter().map(|b| b.number).collect()
}

#[test]
fn provider_hands_out_what_it_was_made_of() {
    let provider = BlockchainProvider::new(7u32);
    assert_eq!(provider.into_inner(), 7);
}

#[test]
fn provider_answers_block_queries_as_its_storage_does() {
    let provider = BlockchainProvider::new(chain());
    let second = provider.block(BlockId::Number(1)).unwrap();
    assert_eq!(second.number, 1);
    assert_eq!(second.transactions, vec![Felt::from_u64(2), Felt::from_u64(3)]);
    assert_eq!(provider.block(BlockId::Hash(second.hash)).unwrap().number, 1);
    assert_eq!(provider.block_by_hash(second.hash).unwrap().number, 1);
    assert_eq!(provider.block_by_number(2).unwrap().parent_hash, second.hash);
    assert!(provider.block_by_number(3).is_none());
    assert!(provider.block_by_hash(Felt::from_u64(0x404)).is_none());
}

#[test]
fn blocks_in_range_leave_out_the_pending_block() {
    let provider = BlockchainProvider::new(chain());
    assert_eq!(numbers(provider.blocks_in_range(0..=10)), vec![0, 1, 2]);
    assert_eq!(numbers(provider.blocks_in_range(2..=3)), vec![2]);
    assert_eq!(numbers(provider.blocks_in_range(3..=3)), Vec::<u64>::new());
    assert_eq!(numbers(provider.blocks_in_range(3..=u64::MAX)), Vec::<u64>::new());
    let inner = provider.into_inner();
    assert!(inner.has_pending_block());
    assert_eq!(inner.pending_block().unwrap().transactions, vec![Felt::from_u64(4)]);
}

#[test]
fn provider_answers_transaction_queries_as_its_storage_does() {
    let provider = BlockchainProvider::new(chain());
    let records = provider.transactions_by_block(BlockId::Number(1));
    assert_eq!(records.len(), 2);
    assert_eq!(records[0].transaction.hash, Felt::from_u64(2));
    assert_eq!(records[1].transaction.hash, Felt::from_u64(3));
    assert!(provider.transactions_by_block(BlockId::Number(2)).is_empty());
    assert!(provider.transactions_by_block(BlockId::Number(3)).is_empty());
    assert!(provider.transactions_by_block(BlockId::Hash(Felt::from_u64(0x404))).is_empty());

    let by_index = provider.transaction_by_block_and_idx(BlockId::Number(1), 1).unwrap();
    assert_eq!(by_index.transaction.hash, Felt::from_u64(3));
    assert_eq!(by_index.block_number, Some(1));
    assert!(provider.transaction_by_block_and_idx(BlockId::Number(1), 2).is_none());
    assert!(provider.transaction_by_block_and_idx(BlockId::Number(7), 0).is_none());

    let pending = provider.transaction_by_hash(Felt::from_u64(4)).unwrap();
    assert_eq!(pending.status, TransactionStatus::AcceptedOnL2);
    assert_eq!(pending.block_number, None);
    assert!(provider.transaction_by_hash(Felt::from_u64(5)).is_none());
}

#[test]
fn provider_answers_receipt_queries_as_its_storage_does() {
    let provider = BlockchainProvider::new(chain());
    assert_eq!(provider.receipt_by_hash(Felt::from_u64(3)).unwrap().gas_consumed, 2);
    assert!(provider.receipt_by_hash(Felt::from_u64(9)).is_none());
    let receipts = provider.receipts_by_block(BlockId::Number(1));
    assert_eq!(receipts.len(), 2);
    assert_eq!(receipts[0].transaction_hash, Felt::from_u64(2));
    assert_eq!(receipts[1].transaction_hash, Felt::from_u64(3));
    assert!(provider.receipts_by_block(BlockId::Number(2)).is_empty());
}

#[test]
fn provider_answers_state_queries_as_its_storage_does() {
    let provider = BlockchainProvider::new(chain());
    let address = Felt::from_u64(0xa);
    assert_eq!(provider.nonce(address), Felt::from_u64(3));
    assert_eq!(provider.storage(address, Felt::from_u64(3)), Felt::from_u64(30));
    assert_eq!(provider.storage(address, Felt::from_u64(4)), Felt::zero());
    assert_eq!(provider.class_hash_of_contract(address), Some(Felt::from_u64(0xc1)));
    assert_eq!(provider.class_hash_of_contract(Felt::from_u64(0xb)), None);
    assert_eq!(provider.compiled_class_hash_of_class_hash(Felt::from_u64(0xc1)), None);
    assert!(provider.class(Felt::from_u64(0xc1)).is_none());
    let info = provider.contract(address).unwrap();
    assert_eq!(info.nonce, Felt::from_u64(3));
    assert_eq!(info.class_hash, Felt::from_u64(0xc1));
    assert!(provider.contract(Felt::from_u64(0xb)).is_none());
}
