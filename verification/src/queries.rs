//! The backend as a storage engine: it answers the queries of the provider
//! traits from its own stores.

use crate::backend::Backend;
use crate::block::{block_of, Block, BlockId};
use crate::felt::Felt;
use crate::ledger::{block_ok, placed, record_ok, Ledger};
use crate::state::CompiledClass;
use crate::traits::{
    BlockProvider, ContractInfo, ContractReader, Provider, ReceiptProvider, StateProvider,
    TransactionProvider,
};
use crate::transaction::{position_of, Receipt, TransactionRecord};
use std::ops::RangeInclusive;
use vstd::prelude::*;

verus! {

/// A block that an id stands for in a consistent ledger stands at the
/// position that its number names.
pub proof fn lemma_found_block(ledger: Ledger, id: BlockId)
    requires
        ledger.consistent(),
        block_of(ledger.blocks, id) is Some,
    ensures
        block_of(ledger.blocks, id).unwrap().number < ledger.blocks.len(),
        ledger.blocks[block_of(ledger.blocks, id).unwrap().number as int] == block_of(
            ledger.blocks,
            id,
        ).unwrap(),
{
    match id {
        BlockId::Number(n) => {
            assert(block_ok(ledger.blocks, ledger.records, n as int));
        },
        BlockId::Hash(h) => {
            let i = choose|i: int|
                0 <= i < ledger.blocks.len() && (#[trigger] ledger.blocks[i]).hash == h;
            assert(block_ok(ledger.blocks, ledger.records, i));
        },
    }
}

impl Provider for Backend {
    open spec fn valid(&self) -> bool {
        self.wf()
    }

    open spec fn ledger(&self) -> Ledger {
        self@
    }

    proof fn lemma_consistent(&self) {
        self.lemma_invariant();
    }
}

impl ContractReader for Backend {
    fn contract(&self, address: Felt) -> (info: Option<ContractInfo>) {
        match self.state().class_hash_of_contract(address) {
            Some(class_hash) => Some(
                ContractInfo { nonce: self.state().nonce(address), class_hash },
            ),
            None => None,
        }
    }
}

impl StateProvider for Backend {
    fn class(&self, hash: Felt) -> (class: Option<&CompiledClass>) {
        self.state().class(hash)
    }

    fn nonce(&self, address: Felt) -> (nonce: Felt) {
        self.state().nonce(address)
    }

    fn storage(&self, address: Felt, storage_key: Felt) -> (value: Felt) {
        self.state().storage(address, storage_key)
    }

    fn class_hash_of_contract(&self, address: Felt) -> (class_hash: Option<Felt>) {
        self.state().class_hash_of_contract(address)
    }

    fn compiled_class_hash_of_class_hash(&self, hash: Felt) -> (compiled: Option<Felt>) {
        self.state().compiled_class_hash_of_class_hash(hash)
    }
}

impl TransactionProvider for Backend {
    fn transactions_by_block(&self, block_id: BlockId) -> (found: Vec<&TransactionRecord>) {
        let mut found: Vec<&TransactionRecord> = Vec::new();
        let ghost ledger = self@;
        proof {
            self.lemma_invariant();
        }
        match self.blocks().block(block_id) {
            None => found,
            Some(block) => {
                proof {
                    lemma_found_block(ledger, block_id);
                    assert(block_ok(ledger.blocks, ledger.records, block.number as int));
                }
                let mut i: usize = 0;
                while i < block.transactions.len()
                    invariant
                        i <= block.transactions.len(),
                        self.wf(),
                        ledger == self@,
                        ledger.consistent(),
                        block.number < ledger.blocks.len(),
                        ledger.blocks[block.number as int] == *block,
                        block_ok(ledger.blocks, ledger.records, block.number as int),
                        found@.len() == i,
                        forall|k: int|
                            0 <= k < i ==> *(#[trigger] found@[k]) == ledger.records[position_of(
                                ledger.records,
                                block.transactions@[k],
                            )],
                    decreases block.transactions.len() - i,
                {
                    proof {
                        let n = block.number as int;
                        assert(placed(
                            ledger.records,
                            ledger.blocks[n].transactions@[i as int],
                            Some(n as u64),
                            Some(ledger.blocks[n].hash),
                        ));
                    }
                    match self.transactions().get(&block.transactions[i]) {
                        Some(record) => {
                            found.push(record);
                        },
                        None => {},
                    }
                    i = i + 1;
                }
                found
            },
        }
    }

    fn transaction_by_hash(&self, hash: Felt) -> (found: Option<&TransactionRecord>) {
        self.transactions().get(&hash)
    }

    fn transaction_by_block_and_idx(&self, block_id: BlockId, idx: u64) -> (found: Option<
        &TransactionRecord,
    >) {
        let ghost ledger = self@;
        proof {
            self.lemma_invariant();
        }
        match self.blocks().block(block_id) {
            None => None,
            Some(block) => {
                proof {
                    lemma_found_block(ledger, block_id);
                    assert(block_ok(ledger.blocks, ledger.records, block.number as int));
                }
                if idx < block.transactions.len() as u64 {
                    proof {
                        let n = block.number as int;
                        assert(placed(
                            ledger.records,
                            ledger.blocks[n].transactions@[idx as int],
                            Some(n as u64),
                            Some(ledger.blocks[n].hash),
                        ));
                    }
                    self.transactions().get(&block.transactions[idx as usize])
                } else {
                    None
                }
            },
        }
    }
}

impl ReceiptProvider for Backend {
    fn receipt_by_hash(&self, hash: Felt) -> (found: Option<&Receipt>) {
        match self.transactions().get(&hash) {
            Some(record) => record.receipt.as_ref(),
            None => None,
        }
    }

    fn receipts_by_block(&self, block_id: BlockId) -> (found: Vec<&Receipt>) {
        let mut found: Vec<&Receipt> = Vec::new();
        let ghost ledger = self@;
        proof {
            self.lemma_invariant();
        }
        match self.blocks().block(block_id) {
            None => found,
            Some(block) => {
                proof {
                    lemma_found_block(ledger, block_id);
                    assert(block_ok(ledger.blocks, ledger.records, block.number as int));
                }
                let mut i: usize = 0;
                while i < block.transactions.len()
                    invariant
                        i <= block.transactions.len(),
                        self.wf(),
                        ledger == self@,
                        ledger.consistent(),
                        block.number < ledger.blocks.len(),
                        ledger.blocks[block.number as int] == *block,
                        block_ok(ledger.blocks, ledger.records, block.number as int),
                        found@.len() == i,
                        forall|k: int|
                            0 <= k < i ==> *(#[trigger] found@[k]) == ledger.records[position_of(
                                ledger.records,
                                block.transactions@[k],
                            )].receipt.unwrap(),
                    decreases block.transactions.len() - i,
                {
                    proof {
                        let n = block.number as int;
                        let t = ledger.blocks[n].transactions@[i as int];
                        assert(placed(
                            ledger.records,
                            ledger.blocks[n].transactions@[i as int],
                            Some(n as u64),
                            Some(ledger.blocks[n].hash),
                        ));
                        assert(record_ok(
                            ledger.blocks,
                            ledger.pending,
                            ledger.records,
                            position_of(ledger.records, t),
                        ));
                    }
                    match self.transactions().get(&block.transactions[i]) {
                        Some(record) => match &record.receipt {
                            Some(receipt) => {
                                found.push(receipt);
                            },
                            None => {},
                        },
                        None => {},
                    }
                    i = i + 1;
                }
                found
            },
        }
    }
}

impl BlockProvider for Backend {
    fn block(&self, id: BlockId) -> (found: Option<&Block>) {
        self.blocks().block(id)
    }

    fn blocks_in_range(&self, range: RangeInclusive<u64>) -> (found: Vec<&Block>) {
        self.blocks().blocks_in_range(range)
    }
}

} // verus!
