//! The entry point for reading the chain, whatever engine stores it.

use crate::block::{Block, BlockId};
use crate::felt::Felt;
use crate::ledger::Ledger;
use crate::state::CompiledClass;
use crate::traits::{
    BlockProvider, ContractInfo, ContractReader, Provider, ReceiptProvider, StateProvider,
    TransactionProvider,
};
use crate::transaction::{Receipt, TransactionRecord};
use std::ops::RangeInclusive;
use vstd::prelude::*;

verus! {

/// The main entrypoint for accessing blockchain storage.
///
/// Provide generalization over the inner storage provider for interacting with the blockchain
/// data. Every answer is that of the inner provider: nothing is kept or changed in between.
pub struct BlockchainProvider<Db> {
    provider: Db,
}

impl<Db> BlockchainProvider<Db> {
    /// The storage provider that stands behind this one.
    pub closed spec fn inner(&self) -> Db {
        self.provider
    }

    pub fn new(provider: Db) -> (this: Self)
        ensures
            this.inner() == provider,
    {
        Self { provider }
    }

    /// Hands the inner storage provider out again.
    pub fn into_inner(self) -> (provider: Db)
        ensures
            provider == self.inner(),
    {
        self.provider
    }
}

impl<Db: Provider> Provider for BlockchainProvider<Db> {
    open spec fn valid(&self) -> bool {
        self.inner().valid()
    }

    open spec fn ledger(&self) -> Ledger {
        self.inner().ledger()
    }

    proof fn lemma_consistent(&self) {
        self.inner().lemma_consistent();
    }
}

impl<Db: ContractReader> ContractReader for BlockchainProvider<Db> {
    fn contract(&self, address: Felt) -> (info: Option<ContractInfo>) {
        self.provider.contract(address)
    }
}

impl<Db: StateProvider> StateProvider for BlockchainProvider<Db> {
    fn class(&self, hash: Felt) -> (class: Option<&CompiledClass>) {
        self.provider.class(hash)
    }

    fn nonce(&self, address: Felt) -> (nonce: Felt) {
        self.provider.nonce(address)
    }

    fn storage(&self, address: Felt, storage_key: Felt) -> (value: Felt) {
        self.provider.storage(address, storage_key)
    }

    fn class_hash_of_contract(&self, address: Felt) -> (class_hash: Option<Felt>) {
        self.provider.class_hash_of_contract(address)
    }

    fn compiled_class_hash_of_class_hash(&self, hash: Felt) -> (compiled: Option<Felt>) {
        self.provider.compiled_class_hash_of_class_hash(hash)
    }
}

impl<Db: TransactionProvider> TransactionProvider for BlockchainProvider<Db> {
    fn transactions_by_block(&self, block_id: BlockId) -> (found: Vec<&TransactionRecord>) {
        self.provider.transactions_by_block(block_id)
    }

    fn transaction_by_hash(&self, hash: Felt) -> (found: Option<&TransactionRecord>) {
        self.provider.transaction_by_hash(hash)
    }

    fn transaction_by_block_and_idx(&self, block_id: BlockId, idx: u64) -> (found: Option<
        &TransactionRecord,
    >) {
        self.provider.transaction_by_block_and_idx(block_id, idx)
    }
}

impl<Db: ReceiptProvider> ReceiptProvider for BlockchainProvider<Db> {
    fn receipt_by_hash(&self, hash: Felt) -> (found: Option<&Receipt>) {
        self.provider.receipt_by_hash(hash)
    }

    fn receipts_by_block(&self, block_id: BlockId) -> (found: Vec<&Receipt>) {
        self.provider.receipts_by_block(block_id)
    }
}

impl<Db: BlockProvider> BlockProvider for BlockchainProvider<Db> {
    fn block(&self, id: BlockId) -> (found: Option<&Block>) {
        self.provider.block(id)
    }

    fn blocks_in_range(&self, range: RangeInclusive<u64>) -> (found: Vec<&Block>) {
        self.provider.blocks_in_range(range)
    }
}

} // verus!
