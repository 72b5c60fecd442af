//! What a storage engine offers to those who read the chain: the state, the
//! transactions, the receipts and the blocks.
//!
//! Every query that can miss hands back nothing, or an empty list, and never
//! fails: that a thing is not there is an ordinary answer.

use crate::block::{block_of, blocks_between, refers_to, Block, BlockId};
use crate::felt::Felt;
use crate::ledger::Ledger;
use crate::state::CompiledClass;
use crate::transaction::{position_of, record_of, Receipt, TransactionRecord};
use std::ops::RangeInclusive;
use vstd::prelude::*;

verus! {

/// What is known of the contract at an address.
#[derive(Clone, Copy, Debug)]
pub struct ContractInfo {
    pub nonce: Felt,
    pub class_hash: Felt,
}

/// What is known of the contract at an address, where one is deployed there.
pub open spec fn contract_at(ledger: Ledger, address: Felt) -> Option<ContractInfo> {
    match ledger.merged().class_hash_at(address) {
        Some(class_hash) => Some(
            ContractInfo { nonce: ledger.merged().nonce_at(address), class_hash },
        ),
        None => None,
    }
}

/// The records of the transactions of a block, in their order in the
/// block; none where there is no such block.
pub open spec fn transactions_of(ledger: Ledger, id: BlockId) -> Seq<TransactionRecord> {
    match block_of(ledger.blocks, id) {
        Some(block) => Seq::new(
            block.transactions@.len(),
            |k: int| ledger.records[position_of(ledger.records, block.transactions@[k])],
        ),
        None => Seq::empty(),
    }
}

/// The record of the transaction at an index of a block.
pub open spec fn transaction_at(ledger: Ledger, id: BlockId, index: u64) -> Option<
    TransactionRecord,
> {
    if index < transactions_of(ledger, id).len() {
        Some(transactions_of(ledger, id)[index as int])
    } else {
        None
    }
}

/// The receipt of the transaction with the given hash, where it was executed.
pub open spec fn receipt_of_hash(ledger: Ledger, hash: Felt) -> Option<Receipt> {
    match record_of(ledger.records, hash) {
        Some(record) => record.receipt,
        None => None,
    }
}

/// The receipts of the transactions of a block, in their order in the block.
pub open spec fn receipts_of(ledger: Ledger, id: BlockId) -> Seq<Receipt> {
    Seq::new(
        transactions_of(ledger, id).len(),
        |k: int| transactions_of(ledger, id)[k].receipt.unwrap(),
    )
}

/// Whether the references are to the given values, one by one.
pub open spec fn refer_to_all<T>(found: Seq<&T>, values: Seq<T>) -> bool {
    &&& found.len() == values.len()
    &&& forall|i: int| 0 <= i < found.len() ==> *(#[trigger] found[i]) == values[i]
}

/// Whether a reference is to the value, or to nothing where there is none.
pub open spec fn refers_to_value<T>(found: Option<&T>, value: Option<T>) -> bool {
    match found {
        Some(r) => value == Some(*r),
        None => value is None,
    }
}

/// What every provider has: the ledger that it reads from.
pub trait Provider {
    /// Whether the provider is in order, so that it may be asked.
    spec fn valid(&self) -> bool;

    /// The ledger that the answers of the provider are read from.
    spec fn ledger(&self) -> Ledger;

    /// A provider that is in order reads from a consistent ledger.
    proof fn lemma_consistent(&self)
        requires
            self.valid(),
        ensures
            self.ledger().consistent(),
    ;
}

pub trait ContractReader: Provider {
    /// Returns the contract information given its address.
    fn contract(&self, address: Felt) -> (info: Option<ContractInfo>)
        requires
            self.valid(),
        ensures
            info == contract_at(self.ledger(), address),
    ;
}

pub trait StateProvider: ContractReader {
    /// Returns the class definition of a contract class given its class hash.
    fn class(&self, hash: Felt) -> (class: Option<&CompiledClass>)
        requires
            self.valid(),
        ensures
            refers_to_value(
                class,
                if self.ledger().classes.contains_key(hash) {
                    Some(self.ledger().classes[hash])
                } else {
                    None
                },
            ),
    ;

    /// Returns the nonce of a contract.
    fn nonce(&self, address: Felt) -> (nonce: Felt)
        requires
            self.valid(),
        ensures
            nonce == self.ledger().merged().nonce_at(address),
    ;

    /// Returns the value of a contract storage.
    fn storage(&self, address: Felt, storage_key: Felt) -> (value: Felt)
        requires
            self.valid(),
        ensures
            value == self.ledger().merged().storage_at(address, storage_key),
    ;

    /// Returns the class hash of a contract.
    fn class_hash_of_contract(&self, address: Felt) -> (class_hash: Option<Felt>)
        requires
            self.valid(),
        ensures
            class_hash == self.ledger().merged().class_hash_at(address),
    ;

    /// Returns the compiled class hash for the given class hash.
    fn compiled_class_hash_of_class_hash(&self, hash: Felt) -> (compiled: Option<Felt>)
        requires
            self.valid(),
        ensures
            compiled == self.ledger().merged().compiled_class_hash_at(hash),
    ;
}

pub trait TransactionProvider: Provider {
    /// Returns all the transactions for a given block.
    fn transactions_by_block(&self, block_id: BlockId) -> (found: Vec<&TransactionRecord>)
        requires
            self.valid(),
        ensures
            refer_to_all(found@, transactions_of(self.ledger(), block_id)),
    ;

    /// Returns a transaction given its hash.
    fn transaction_by_hash(&self, hash: Felt) -> (found: Option<&TransactionRecord>)
        requires
            self.valid(),
        ensures
            refers_to_value(found, record_of(self.ledger().records, hash)),
    ;

    /// Returns the transaction at the given block and its exact index in the block.
    fn transaction_by_block_and_idx(&self, block_id: BlockId, idx: u64) -> (found: Option<
        &TransactionRecord,
    >)
        requires
            self.valid(),
        ensures
            refers_to_value(found, transaction_at(self.ledger(), block_id, idx)),
    ;
}

pub trait ReceiptProvider: Provider {
    /// Returns the transaction receipt given a transaction hash.
    fn receipt_by_hash(&self, hash: Felt) -> (found: Option<&Receipt>)
        requires
            self.valid(),
        ensures
            refers_to_value(found, receipt_of_hash(self.ledger(), hash)),
    ;

    /// Returns all the receipts for a given block.
    fn receipts_by_block(&self, block_id: BlockId) -> (found: Vec<&Receipt>)
        requires
            self.valid(),
        ensures
            refer_to_all(found@, receipts_of(self.ledger(), block_id)),
    ;
}

pub trait BlockProvider: Provider {
    /// Returns a block by its id.
    fn block(&self, id: BlockId) -> (found: Option<&Block>)
        requires
            self.valid(),
        ensures
            refers_to(found, block_of(self.ledger().blocks, id)),
    ;

    /// Returns all available blocks in the given range.
    fn blocks_in_range(&self, range: RangeInclusive<u64>) -> (found: Vec<&Block>)
        requires
            self.valid(),
        ensures
            refer_to_all(found@, blocks_between(self.ledger().blocks, range@)),
    ;

    /// Returns the block based on its hash.
    fn block_by_hash(&self, hash: Felt) -> (found: Option<&Block>)
        requires
            self.valid(),
        ensures
            refers_to(found, block_of(self.ledger().blocks, BlockId::Hash(hash))),
    {
        self.block(BlockId::Hash(hash))
    }

    /// Returns the block based on its number.
    fn block_by_number(&self, number: u64) -> (found: Option<&Block>)
        requires
            self.valid(),
        ensures
            refers_to(found, block_of(self.ledger().blocks, BlockId::Number(number))),
    {
        self.block(BlockId::Number(number))
    }
}

} // verus!
