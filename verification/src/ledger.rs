//! The ledger as a mathematical value: what the backend holds, seen through
//! the views of its parts, with the steps that the backend takes written as
//! functions on that value, and the proof that each step keeps the ledger
//! consistent.

use crate::block::{block_of, next_parent, Block, BlockId, PendingView};
use crate::context::BlockContext;
use crate::felt::Felt;
use crate::hash::spec_block_hash;
use crate::keymap::lemma_inserted_all_joined;
use crate::state::{
    lemma_commit_keeps_merged, lemma_unwritten_storage_is_zero, CompiledClass, DiffView, LayerView,
    StorageSlot,
};
use crate::transaction::{
    evolved, has_record, position_of, record_of, record_step, ExecutedTransaction,
    ExecutionOutcome, ExecutionOutput, Receipt, RejectReason, Rejection, Transaction,
    TransactionRecord, TransactionStatus,
};
use vstd::prelude::*;

verus! {

/// How the backend was set up.
#[derive(Clone, Copy, Debug)]
pub struct BackendConfig {
    /// Whether a block is sealed at once after each accepted transaction.
    /// Where it is not, blocks are sealed on request only.
    pub auto_mine: bool,
    /// Whether a transaction that offers no fee is taken.
    pub allow_zero_max_fee: bool,
    /// The timestamp at which the chain starts.
    pub genesis_timestamp: u64,
    pub gas_price: u128,
}

/// What the backend holds, as a mathematical value.
pub struct Ledger {
    pub config: BackendConfig,
    pub context: BlockContext,
    /// The sealed blocks in the order of their numbers.
    pub blocks: Seq<Block>,
    /// The records of all transactions in the order of their submission.
    pub records: Seq<TransactionRecord>,
    /// The pending block, while one is open.
    pub pending: Option<PendingView>,
    /// The state that sealed blocks have committed.
    pub base: LayerView,
    /// The changes of the pending block, which lie over the base.
    pub overlay: LayerView,
    /// The compiled classes by class hash.
    pub classes: Map<Felt, CompiledClass>,
}

/// Whether no two records are for the same hash.
pub open spec fn distinct_hashes(records: Seq<TransactionRecord>) -> bool {
    forall|i: int, j: int|
        0 <= i < j < records.len() ==> (#[trigger] records[i]).transaction.hash != (
        #[trigger] records[j]).transaction.hash
}

/// Whether the transaction with the given hash is recorded as accepted, with
/// the given block.
pub open spec fn placed(
    records: Seq<TransactionRecord>,
    hash: Felt,
    number: Option<u64>,
    block_hash: Option<Felt>,
) -> bool {
    &&& has_record(records, hash)
    &&& records[position_of(records, hash)].status == TransactionStatus::AcceptedOnL2
    &&& records[position_of(records, hash)].block_number == number
    &&& records[position_of(records, hash)].block_hash == block_hash
}

/// What holds of the sealed block at position `n`: its number is its
/// position, its hash is the hash of its content, it lists no transaction
/// twice, and each of its transactions is recorded as accepted in it.
pub open spec fn block_ok(blocks: Seq<Block>, records: Seq<TransactionRecord>, n: int) -> bool {
    &&& blocks[n].number == n
    &&& blocks[n].hash@ == spec_block_hash(
        blocks[n].number,
        blocks[n].timestamp,
        blocks[n].parent_hash,
        blocks[n].transactions@,
    )
    &&& blocks[n].transactions@.no_duplicates()
    &&& forall|k: int|
        0 <= k < blocks[n].transactions@.len() ==> #[trigger] placed(
            records,
            blocks[n].transactions@[k],
            Some(n as u64),
            Some(blocks[n].hash),
        )
}

/// What holds of the pending block: it lists no transaction twice, and each
/// of its transactions is recorded as accepted, without a block yet.
pub open spec fn pending_ok(pending: Option<PendingView>, records: Seq<TransactionRecord>) -> bool {
    pending matches Some(p) ==> {
        &&& p.transactions.no_duplicates()
        &&& forall|k: int|
            0 <= k < p.transactions.len() ==> #[trigger] placed(
                records,
                p.transactions[k],
                None,
                None,
            )
    }
}

/// Whether a record has found its place: no record stays `Pending`; an
/// accepted transaction stands in the sealed block that its record names,
/// or, while its record names none, in the pending block.
pub open spec fn settled(
    blocks: Seq<Block>,
    pending: Option<PendingView>,
    record: TransactionRecord,
) -> bool {
    match record.status {
        TransactionStatus::Pending => false,
        TransactionStatus::Rejected => true,
        TransactionStatus::AcceptedOnL2 => match record.block_number {
            Some(n) => n < blocks.len() && blocks[n as int].transactions@.contains(
                record.transaction.hash,
            ) && record.block_hash == Some(blocks[n as int].hash),
            None => pending matches Some(p) && p.transactions.contains(record.transaction.hash),
        },
    }
}

/// What holds of the record at position `j`.
pub open spec fn record_ok(
    blocks: Seq<Block>,
    pending: Option<PendingView>,
    records: Seq<TransactionRecord>,
    j: int,
) -> bool {
    &&& records[j].consistent()
    &&& settled(blocks, pending, records[j])
}

/// The records after the block that holds the transactions `sealed` was
/// sealed with the given number and hash: the record of each of those
/// transactions names the block, the other records are as they were.
pub open spec fn sealed_records(
    records: Seq<TransactionRecord>,
    sealed: Seq<Felt>,
    number: u64,
    block_hash: Felt,
) -> Seq<TransactionRecord> {
    Seq::new(
        records.len(),
        |j: int|
            if sealed.contains(records[j].transaction.hash) {
                records[j].sealed_in(number, block_hash)
            } else {
                records[j]
            },
    )
}

/// The state that the given blocks have committed: the changes of each
/// block laid over what the blocks before it committed.
pub open spec fn committed_state(blocks: Seq<Block>) -> LayerView
    decreases blocks.len(),
{
    if blocks.len() == 0 {
        LayerView::empty()
    } else {
        committed_state(blocks.drop_last()).overlay(
            LayerView::empty().with_diff(blocks.last().state_diff@),
        )
    }
}

/// The receipt that the engine handed back, whichever way the execution went.
pub open spec fn receipt_of(outcome: ExecutionOutcome) -> Receipt {
    match outcome {
        ExecutionOutcome::Succeeded(output) => output.receipt,
        ExecutionOutcome::Reverted(receipt) => receipt,
    }
}

/// Whether no two of the executed transactions have the same hash.
pub open spec fn distinct_transactions(items: Seq<ExecutedTransaction>) -> bool {
    forall|i: int, j: int|
        0 <= i < j < items.len() ==> (#[trigger] items[i]).transaction.hash != (
        #[trigger] items[j]).transaction.hash
}

/// Whether one of the executed transactions has the hash.
pub open spec fn among(items: Seq<ExecutedTransaction>, hash: Felt) -> bool {
    exists|k: int| 0 <= k < items.len() && (#[trigger] items[k]).transaction.hash == hash
}

/// The hashes of the executed transactions, in their order.
pub open spec fn hashes_of(items: Seq<ExecutedTransaction>) -> Seq<Felt> {
    Seq::new(items.len(), |k: int| items[k].transaction.hash)
}

/// The ledger after each of the executed transactions was accepted into
/// the pending block, from the first to the last.
pub open spec fn bootstrapped(ledger: Ledger, items: Seq<ExecutedTransaction>) -> Ledger
    decreases items.len(),
{
    if items.len() == 0 {
        ledger
    } else {
        bootstrapped(ledger, items.drop_last()).accepted(
            items.last().transaction,
            items.last().output,
        )
    }
}

impl Ledger {
    /// Whether nothing has happened on the chain yet: no block is sealed,
    /// no transaction is recorded and no pending block is open.
    pub open spec fn is_fresh(self) -> bool {
        self.blocks.len() == 0 && self.records.len() == 0 && self.pending is None
    }

    /// What a reader of the state sees: the changes of the pending block
    /// over the committed state.
    pub open spec fn merged(self) -> LayerView {
        self.base.overlay(self.overlay)
    }

    /// The changes that the pending block has accumulated.
    pub open spec fn pending_diff(self) -> DiffView {
        match self.pending {
            Some(p) => p.state_diff,
            None => DiffView::empty(),
        }
    }

    /// What holds of the context: it names the block that was sealed last,
    /// and its clock is not behind that block.
    pub open spec fn head_ok(self) -> bool {
        &&& self.context.wf()
        &&& self.context.block_number == (if self.blocks.len() == 0 {
            0
        } else {
            self.blocks.len() - 1
        })
        &&& self.blocks.len() > 0 ==> self.blocks.last().timestamp <= self.context.timestamp
    }

    /// Whether the ledger is consistent.
    pub open spec fn consistent(self) -> bool {
        &&& self.head_ok()
        &&& distinct_hashes(self.records)
        &&& forall|j: int|
            0 <= j < self.records.len() ==> #[trigger] record_ok(
                self.blocks,
                self.pending,
                self.records,
                j,
            )
        &&& forall|n: int| 0 <= n < self.blocks.len() ==> #[trigger] block_ok(
            self.blocks,
            self.records,
            n,
        )
        &&& pending_ok(self.pending, self.records)
        &&& self.overlay == LayerView::empty().with_diff(self.pending_diff())
        &&& self.base == committed_state(self.blocks)
    }

    /// The ledger of a backend that was just set up.
    pub open spec fn initial(config: BackendConfig) -> Ledger {
        Ledger {
            config,
            context: BlockContext {
                block_number: 0,
                timestamp: config.genesis_timestamp,
                gas_price: config.gas_price,
                next_timestamp: None,
            },
            blocks: Seq::empty(),
            records: Seq::empty(),
            pending: None,
            base: LayerView::empty(),
            overlay: LayerView::empty(),
            classes: Map::empty(),
        }
    }

    /// The ledger after a pending block was opened: a queued timestamp has
    /// become the current one; transactions that were pending stay pending.
    pub open spec fn opened(self) -> Ledger {
        Ledger {
            context: self.context.opened(),
            pending: match self.pending {
                Some(p) => Some(p),
                None => Some(
                    PendingView { transactions: Seq::empty(), state_diff: DiffView::empty() },
                ),
            },
            ..self
        }
    }

    /// Why the transaction is turned away before it is executed, if it is:
    /// its nonce must be the current nonce of its sender, and it must offer
    /// a fee unless none is asked for.
    pub open spec fn precheck(self, transaction: Transaction) -> Option<RejectReason> {
        if transaction.nonce != self.merged().nonce_at(transaction.sender) {
            Some(RejectReason::InvalidNonce)
        } else if transaction.max_fee == 0 && !self.config.allow_zero_max_fee {
            Some(RejectReason::InsufficientFee)
        } else {
            None
        }
    }

    /// Why the transaction is rejected, if it is: it is turned away before
    /// execution, or its execution reverted.
    pub open spec fn verdict(self, transaction: Transaction, outcome: ExecutionOutcome) -> Option<
        RejectReason,
    > {
        match self.precheck(transaction) {
            Some(reason) => Some(reason),
            None => if outcome is Reverted {
                Some(RejectReason::Reverted)
            } else {
                None
            },
        }
    }

    /// The rejection for a reason: where the execution reverted, it holds
    /// the receipt that the engine handed back.
    pub open spec fn rejection_for(reason: RejectReason, outcome: ExecutionOutcome) -> Rejection {
        match reason {
            RejectReason::InvalidNonce => Rejection::InvalidNonce,
            RejectReason::InsufficientFee => Rejection::InsufficientFee,
            RejectReason::Reverted => Rejection::Reverted(receipt_of(outcome)),
        }
    }

    /// The ledger after the transaction was recorded as rejected: nothing
    /// but the records has changed.
    pub open spec fn rejected(self, transaction: Transaction, rejection: Rejection) -> Ledger {
        Ledger {
            records: self.records.push(
                TransactionRecord::spec_pending(transaction).rejected_with(rejection),
            ),
            ..self
        }
    }

    /// The ledger after the transaction was accepted into the pending block.
    pub open spec fn accepted(self, transaction: Transaction, output: ExecutionOutput) -> Ledger
        recommends
            self.pending is Some,
    {
        Ledger {
            records: self.records.push(
                TransactionRecord::spec_pending(transaction).accepted_with(output.receipt),
            ),
            pending: Some(
                PendingView {
                    transactions: self.pending.unwrap().transactions.push(transaction.hash),
                    state_diff: self.pending.unwrap().state_diff.followed_by(output.state_diff@),
                },
            ),
            overlay: self.overlay.with_diff(output.state_diff@),
            classes: match output.declared_class {
                Some(definition) => self.classes.insert(definition.class_hash, definition.class),
                None => self.classes,
            },
            ..self
        }
    }

    /// The bytes of the hash that the pending block gets when it is sealed.
    pub open spec fn next_digest(self) -> Seq<u8>
        recommends
            self.pending is Some,
    {
        spec_block_hash(
            self.blocks.len() as u64,
            self.context.timestamp,
            next_parent(self.blocks),
            self.pending.unwrap().transactions,
        )
    }

    /// Whether a sealed block has the given bytes as its hash.
    pub open spec fn has_digest(self, digest: Seq<u8>) -> bool {
        exists|i: int| 0 <= i < self.blocks.len() && (#[trigger] self.blocks[i]).hash@ == digest
    }

    /// Whether `block` is what sealing the pending block gives: it has the
    /// next number, the current timestamp, the latest block as its parent,
    /// the transactions and the changes of the pending block, and the hash
    /// of that content.
    pub open spec fn seals_into(self, block: Block) -> bool
        recommends
            self.pending is Some,
    {
        &&& block.number == self.blocks.len()
        &&& block.timestamp == self.context.timestamp
        &&& block.parent_hash == next_parent(self.blocks)
        &&& block@ == self.pending.unwrap()
        &&& block.hash@ == self.next_digest()
    }

    /// The ledger after the pending block was sealed as `block`: the block
    /// is the latest, the records of its transactions name it, the pending
    /// changes are committed, no pending block is open, and the context
    /// names the new block.
    pub open spec fn sealed_as(self, block: Block) -> Ledger
        recommends
            self.pending is Some,
    {
        Ledger {
            blocks: self.blocks.push(block),
            records: sealed_records(
                self.records,
                self.pending.unwrap().transactions,
                block.number,
                block.hash,
            ),
            pending: None,
            base: self.base.overlay(self.overlay),
            overlay: LayerView::empty(),
            context: self.context.sealed(block.number),
            ..self
        }
    }
}

/// In records without a repeated hash, the record for a hash stands at one
/// position only.
pub proof fn lemma_position_unique(records: Seq<TransactionRecord>, i: int)
    requires
        distinct_hashes(records),
        0 <= i < records.len(),
    ensures
        has_record(records, records[i].transaction.hash),
        position_of(records, records[i].transaction.hash) == i,
{
    let hash = records[i].transaction.hash;
    assert(has_record(records, hash));
    let p = position_of(records, hash);
    assert(records[p].transaction.hash == hash);
    if p < i {
        assert(records[p].transaction.hash != records[i].transaction.hash);
    } else if i < p {
        assert(records[i].transaction.hash != records[p].transaction.hash);
    }
}

/// Records that changed but kept their hashes are found at the positions
/// at which they were found before.
pub proof fn lemma_same_hashes(
    before: Seq<TransactionRecord>,
    after: Seq<TransactionRecord>,
    hash: Felt,
)
    requires
        distinct_hashes(before),
        before.len() == after.len(),
        forall|i: int|
            0 <= i < before.len() ==> (#[trigger] after[i]).transaction.hash
                == before[i].transaction.hash,
    ensures
        distinct_hashes(after),
        has_record(after, hash) <==> has_record(before, hash),
        has_record(before, hash) ==> position_of(after, hash) == position_of(before, hash),
{
    assert forall|i: int, j: int| 0 <= i < j < after.len() implies (
    #[trigger] after[i]).transaction.hash != (#[trigger] after[j]).transaction.hash by {
        assert(before[i].transaction.hash != before[j].transaction.hash);
    }
    if has_record(before, hash) {
        let p = position_of(before, hash);
        assert(after[p].transaction.hash == hash);
        lemma_position_unique(after, p);
    }
    if has_record(after, hash) {
        let p = position_of(after, hash);
        assert(after[p].transaction.hash == hash);
        assert(before[p].transaction.hash == hash);
    }
}

/// A record that is added for a hash that had none leaves every other
/// record where it was found before, and is itself found at the end.
pub proof fn lemma_pushed(before: Seq<TransactionRecord>, record: TransactionRecord, hash: Felt)
    requires
        distinct_hashes(before),
        !has_record(before, record.transaction.hash),
    ensures
        distinct_hashes(before.push(record)),
        has_record(before.push(record), hash) <==> (has_record(before, hash) || hash
            == record.transaction.hash),
        has_record(before, hash) ==> position_of(before.push(record), hash) == position_of(
            before,
            hash,
        ),
        hash == record.transaction.hash ==> position_of(before.push(record), hash) == before.len(),
{
    let after = before.push(record);
    assert forall|i: int, j: int| 0 <= i < j < after.len() implies (
    #[trigger] after[i]).transaction.hash != (#[trigger] after[j]).transaction.hash by {
        if j < before.len() {
            assert(before[i].transaction.hash != before[j].transaction.hash);
        } else {
            assert(after[i] == before[i]);
            if before[i].transaction.hash == record.transaction.hash {
                assert(has_record(before, record.transaction.hash));
            }
        }
    }
    if has_record(before, hash) {
        let p = position_of(before, hash);
        assert(after[p] == before[p]);
        lemma_position_unique(after, p);
    }
    if hash == record.transaction.hash {
        assert(after[before.len() as int] == record);
        lemma_position_unique(after, before.len() as int);
    }
    if has_record(after, hash) {
        let p = position_of(after, hash);
        assert(after[p].transaction.hash == hash);
        if p < before.len() {
            assert(before[p] == after[p]);
        }
    }
}

/// A backend that was just set up holds a consistent ledger.
pub proof fn lemma_initial_consistent(config: BackendConfig)
    ensures
        Ledger::initial(config).consistent(),
{
}

/// Opening a pending block keeps the ledger consistent.
pub proof fn lemma_opened_consistent(ledger: Ledger)
    requires
        ledger.consistent(),
    ensures
        ledger.opened().consistent(),
{
    let after = ledger.opened();
    assert forall|j: int| 0 <= j < after.records.len() implies #[trigger] record_ok(
        after.blocks,
        after.pending,
        after.records,
        j,
    ) by {
        assert(record_ok(ledger.blocks, ledger.pending, ledger.records, j));
    }
    assert forall|n: int| 0 <= n < after.blocks.len() implies #[trigger] block_ok(
        after.blocks,
        after.records,
        n,
    ) by {
        assert(block_ok(ledger.blocks, ledger.records, n));
    }
}

/// Recording a rejected transaction keeps the ledger consistent.
pub proof fn lemma_rejected_consistent(
    ledger: Ledger,
    transaction: Transaction,
    rejection: Rejection,
)
    requires
        ledger.consistent(),
        !has_record(ledger.records, transaction.hash),
    ensures
        ledger.rejected(transaction, rejection).consistent(),
{
    let after = ledger.rejected(transaction, rejection);
    let record = TransactionRecord::spec_pending(transaction).rejected_with(rejection);
    lemma_pushed(ledger.records, record, transaction.hash);
    assert forall|j: int| 0 <= j < after.records.len() implies #[trigger] record_ok(
        after.blocks,
        after.pending,
        after.records,
        j,
    ) by {
        if j < ledger.records.len() {
            assert(record_ok(ledger.blocks, ledger.pending, ledger.records, j));
            assert(after.records[j] == ledger.records[j]);
        }
    }
    assert forall|n: int| 0 <= n < after.blocks.len() implies #[trigger] block_ok(
        after.blocks,
        after.records,
        n,
    ) by {
        assert(block_ok(ledger.blocks, ledger.records, n));
        assert forall|k: int| 0 <= k < after.blocks[n].transactions@.len() implies #[trigger] placed(
            after.records,
            after.blocks[n].transactions@[k],
            Some(n as u64),
            Some(after.blocks[n].hash),
        ) by {
            let t = ledger.blocks[n].transactions@[k];
            assert(placed(ledger.records, t, Some(n as u64), Some(ledger.blocks[n].hash)));
            lemma_pushed(ledger.records, record, t);
        }
    }
    if ledger.pending is Some {
        let p = ledger.pending.unwrap();
        assert forall|k: int| 0 <= k < p.transactions.len() implies #[trigger] placed(
            after.records,
            p.transactions[k],
            None,
            None,
        ) by {
            assert(placed(ledger.records, p.transactions[k], None, None));
            lemma_pushed(ledger.records, record, p.transactions[k]);
        }
    }
}

/// Accepting a transaction into the pending block keeps the ledger
/// consistent.
pub proof fn lemma_accepted_consistent(
    ledger: Ledger,
    transaction: Transaction,
    output: ExecutionOutput,
)
    requires
        ledger.consistent(),
        ledger.pending is Some,
        !has_record(ledger.records, transaction.hash),
    ensures
        ledger.accepted(transaction, output).consistent(),
{
    let after = ledger.accepted(transaction, output);
    let record = TransactionRecord::spec_pending(transaction).accepted_with(output.receipt);
    let before_pending = ledger.pending.unwrap();
    let pending = after.pending.unwrap();
    let hash = transaction.hash;
    lemma_pushed(ledger.records, record, hash);
    assert(pending.transactions[before_pending.transactions.len() as int] == hash);
    assert forall|j: int| 0 <= j < after.records.len() implies #[trigger] record_ok(
        after.blocks,
        after.pending,
        after.records,
        j,
    ) by {
        if j < ledger.records.len() {
            assert(record_ok(ledger.blocks, ledger.pending, ledger.records, j));
            assert(after.records[j] == ledger.records[j]);
            let r = ledger.records[j];
            if r.status == TransactionStatus::AcceptedOnL2 && r.block_number is None {
                let k = before_pending.transactions.index_of(r.transaction.hash);
                assert(pending.transactions[k] == r.transaction.hash);
            }
        }
    }
    assert forall|n: int| 0 <= n < after.blocks.len() implies #[trigger] block_ok(
        after.blocks,
        after.records,
        n,
    ) by {
        assert(block_ok(ledger.blocks, ledger.records, n));
        assert forall|k: int| 0 <= k < after.blocks[n].transactions@.len() implies #[trigger] placed(
            after.records,
            after.blocks[n].transactions@[k],
            Some(n as u64),
            Some(after.blocks[n].hash),
        ) by {
            let t = ledger.blocks[n].transactions@[k];
            assert(placed(ledger.records, t, Some(n as u64), Some(ledger.blocks[n].hash)));
            lemma_pushed(ledger.records, record, t);
        }
    }
    assert forall|k: int| 0 <= k < pending.transactions.len() implies #[trigger] placed(
        after.records,
        pending.transactions[k],
        None,
        None,
    ) by {
        if k < before_pending.transactions.len() {
            assert(placed(ledger.records, before_pending.transactions[k], None, None));
            lemma_pushed(ledger.records, record, before_pending.transactions[k]);
        }
    }
    assert(pending.transactions.no_duplicates()) by {
        assert forall|a: int, b: int|
            0 <= a < pending.transactions.len() && 0 <= b < pending.transactions.len() && a
                != b implies pending.transactions[a] != pending.transactions[b] by {
            if a < before_pending.transactions.len() && b < before_pending.transactions.len() {
            } else if a < before_pending.transactions.len() {
                assert(placed(ledger.records, before_pending.transactions[a], None, None));
            } else if b < before_pending.transactions.len() {
                assert(placed(ledger.records, before_pending.transactions[b], None, None));
            }
        }
    }
    let d = output.state_diff@;
    let e = before_pending.state_diff;
    let empty = LayerView::empty();
    lemma_inserted_all_joined(empty.storage, e.storage_updates, d.storage_updates);
    lemma_inserted_all_joined(empty.nonces, e.nonce_updates, d.nonce_updates);
    lemma_inserted_all_joined(empty.class_hashes, e.deployed_contracts, d.deployed_contracts);
    lemma_inserted_all_joined(
        empty.compiled_class_hashes,
        e.declared_classes,
        d.declared_classes,
    );
}

/// Sealing the pending block keeps the ledger consistent.
pub proof fn lemma_sealed_consistent(ledger: Ledger, block: Block)
    requires
        ledger.consistent(),
        ledger.pending is Some,
        ledger.seals_into(block),
    ensures
        ledger.sealed_as(block).consistent(),
{
    let after = ledger.sealed_as(block);
    let sealed = ledger.pending.unwrap().transactions;
    let number = block.number;
    assert(after.blocks[number as int] == block);
    assert(after.blocks.last() == block);
    assert(after.blocks.drop_last() =~= ledger.blocks);
    assert forall|i: int| 0 <= i < ledger.records.len() implies (
    #[trigger] after.records[i]).transaction.hash == ledger.records[i].transaction.hash by {}
    lemma_same_hashes(ledger.records, after.records, block.hash);
    // A record whose transaction is sealed now was accepted and without a block.
    assert forall|j: int|
        0 <= j < ledger.records.len() && sealed.contains(
            ledger.records[j].transaction.hash,
        ) implies (#[trigger] ledger.records[j]).awaits_block() by {
        let t = ledger.records[j].transaction.hash;
        let k = sealed.index_of(t);
        assert(placed(ledger.records, sealed[k], None, None));
        lemma_position_unique(ledger.records, j);
    }
    assert forall|j: int| 0 <= j < after.records.len() implies #[trigger] record_ok(
        after.blocks,
        after.pending,
        after.records,
        j,
    ) by {
        assert(record_ok(ledger.blocks, ledger.pending, ledger.records, j));
        let r = ledger.records[j];
        if sealed.contains(r.transaction.hash) {
            assert(r.awaits_block());
        } else {
            if r.status == TransactionStatus::AcceptedOnL2 && r.block_number is Some {
                let n = r.block_number.unwrap();
                assert(after.blocks[n as int] == ledger.blocks[n as int]);
            }
        }
    }
    assert forall|n: int| 0 <= n < after.blocks.len() implies #[trigger] block_ok(
        after.blocks,
        after.records,
        n,
    ) by {
        if n < ledger.blocks.len() {
            assert(after.blocks[n] == ledger.blocks[n]);
            assert(block_ok(ledger.blocks, ledger.records, n));
            assert forall|k: int|
                0 <= k < after.blocks[n].transactions@.len() implies #[trigger] placed(
                after.records,
                after.blocks[n].transactions@[k],
                Some(n as u64),
                Some(after.blocks[n].hash),
            ) by {
                let t = ledger.blocks[n].transactions@[k];
                assert(placed(ledger.records, t, Some(n as u64), Some(ledger.blocks[n].hash)));
                lemma_same_hashes(ledger.records, after.records, t);
                let p = position_of(ledger.records, t);
                if sealed.contains(t) {
                    assert(ledger.records[p].awaits_block());
                }
            }
        } else {
            assert forall|k: int|
                0 <= k < after.blocks[n].transactions@.len() implies #[trigger] placed(
                after.records,
                after.blocks[n].transactions@[k],
                Some(n as u64),
                Some(after.blocks[n].hash),
            ) by {
                let t = sealed[k];
                assert(placed(ledger.records, t, None, None));
                lemma_same_hashes(ledger.records, after.records, t);
                assert(sealed.contains(t));
            }
        }
    }
}

/// Accepting executed transactions with distinct, unrecorded hashes keeps
/// the ledger consistent, records exactly them in addition, and appends
/// their hashes to the pending block in their order. Blocks, committed
/// state, context and configuration stay as they are.
pub proof fn lemma_bootstrapped(ledger: Ledger, items: Seq<ExecutedTransaction>)
    requires
        ledger.consistent(),
        ledger.pending is Some,
        distinct_transactions(items),
        forall|k: int|
            0 <= k < items.len() ==> !has_record(
                ledger.records,
                (#[trigger] items[k]).transaction.hash,
            ),
    ensures
        bootstrapped(ledger, items).consistent(),
        bootstrapped(ledger, items).pending is Some,
        bootstrapped(ledger, items).blocks == ledger.blocks,
        bootstrapped(ledger, items).context == ledger.context,
        bootstrapped(ledger, items).config == ledger.config,
        bootstrapped(ledger, items).base == ledger.base,
        bootstrapped(ledger, items).records.len() == ledger.records.len() + items.len(),
        bootstrapped(ledger, items).pending.unwrap().transactions
            == ledger.pending.unwrap().transactions + hashes_of(items),
        forall|h: Felt|
            #![trigger has_record(bootstrapped(ledger, items).records, h)]
            #![trigger among(items, h)]
            has_record(bootstrapped(ledger, items).records, h) <==> (has_record(ledger.records, h)
                || among(items, h)),
    decreases items.len(),
{
    if items.len() == 0 {
        assert(ledger.pending.unwrap().transactions + hashes_of(items)
            =~= ledger.pending.unwrap().transactions);
        assert(bootstrapped(ledger, items) == ledger);
        assert forall|h: Felt|
            #![trigger has_record(bootstrapped(ledger, items).records, h)]
            #![trigger among(items, h)]
            has_record(bootstrapped(ledger, items).records, h) <==> (has_record(ledger.records, h)
                || among(items, h)) by {
            assert(!among(items, h));
        }
    } else {
        let rest = items.drop_last();
        let last = items.last();
        assert forall|i: int, j: int| 0 <= i < j < rest.len() implies (
        #[trigger] rest[i]).transaction.hash != (#[trigger] rest[j]).transaction.hash by {
            assert(items[i].transaction.hash != items[j].transaction.hash);
        }
        assert forall|k: int| 0 <= k < rest.len() implies !has_record(
            ledger.records,
            (#[trigger] rest[k]).transaction.hash,
        ) by {
            assert(rest[k] == items[k]);
        }
        lemma_bootstrapped(ledger, rest);
        let mid = bootstrapped(ledger, rest);
        assert(!has_record(mid.records, last.transaction.hash)) by {
            if among(rest, last.transaction.hash) {
                let k = choose|k: int|
                    0 <= k < rest.len() && (#[trigger] rest[k]).transaction.hash
                        == last.transaction.hash;
                assert(items[k].transaction.hash != items[items.len() - 1].transaction.hash);
            }
            assert(!has_record(ledger.records, items[items.len() - 1].transaction.hash));
        }
        lemma_accepted_consistent(mid, last.transaction, last.output);
        let after = bootstrapped(ledger, items);
        let record = TransactionRecord::spec_pending(last.transaction).accepted_with(
            last.output.receipt,
        );
        assert(after.pending.unwrap().transactions =~= ledger.pending.unwrap().transactions
            + hashes_of(items));
        assert(after.records == mid.records.push(record));
        assert forall|h: Felt|
            #![trigger has_record(after.records, h)]
            #![trigger among(items, h)]
            has_record(after.records, h) <==> (has_record(ledger.records, h) || among(
                items,
                h,
            )) by {
            lemma_pushed(mid.records, record, h);
            assert(has_record(mid.records, h) <==> (has_record(ledger.records, h) || among(
                rest,
                h,
            )));
            if among(rest, h) {
                let k = choose|k: int|
                    0 <= k < rest.len() && (#[trigger] rest[k]).transaction.hash == h;
                assert(items[k].transaction.hash == h);
            }
            if among(items, h) {
                let k = choose|k: int|
                    0 <= k < items.len() && (#[trigger] items[k]).transaction.hash == h;
                if k < rest.len() {
                    assert(rest[k].transaction.hash == h);
                }
            }
            if h == last.transaction.hash {
                assert(items[items.len() - 1].transaction.hash == h);
            }
        }
    }
}

/// A timestamp that was queued is exactly the timestamp of the pending
/// block that is opened next, and is queued no longer then.
pub proof fn lemma_queued_timestamp_is_taken(ledger: Ledger, timestamp: u64)
    ensures
        (Ledger { context: ledger.context.queued(timestamp), ..ledger }).opened().context.timestamp
            == timestamp,
        (Ledger {
            context: ledger.context.queued(timestamp),
            ..ledger
        }).opened().context.next_timestamp is None,
        (Ledger { context: ledger.context.queued(timestamp), ..ledger }).opened().blocks
            == ledger.blocks,
{
}

/// While exactly one block is sealed, that block is the block with the
/// number 0 and the latest block at once.
pub proof fn lemma_single_block_is_first_and_latest(blocks: Seq<Block>)
    requires
        blocks.len() == 1,
    ensures
        block_of(blocks, BlockId::Number(0)) == Some(blocks.last()),
        block_of(blocks, BlockId::Number(1)) is None,
{
}

/// A transaction that was rejected is found by its hash, as rejected and
/// without a block; and neither the sealed blocks, nor the pending block,
/// nor the state have changed.
pub proof fn lemma_rejected_is_recorded(
    ledger: Ledger,
    transaction: Transaction,
    rejection: Rejection,
)
    requires
        ledger.consistent(),
        !has_record(ledger.records, transaction.hash),
    ensures
        record_of(ledger.rejected(transaction, rejection).records, transaction.hash) == Some(
            TransactionRecord::spec_pending(transaction).rejected_with(rejection),
        ),
        record_of(ledger.rejected(transaction, rejection).records, transaction.hash).unwrap().status == TransactionStatus::Rejected,
        record_of(ledger.rejected(transaction, rejection).records, transaction.hash).unwrap().block_number is None,
        record_of(ledger.rejected(transaction, rejection).records, transaction.hash).unwrap().block_hash is None,
        ledger.rejected(transaction, rejection).blocks == ledger.blocks,
        ledger.rejected(transaction, rejection).pending == ledger.pending,
        ledger.rejected(transaction, rejection).merged() == ledger.merged(),
        ledger.rejected(transaction, rejection).classes == ledger.classes,
{
    let record = TransactionRecord::spec_pending(transaction).rejected_with(rejection);
    lemma_pushed(ledger.records, record, transaction.hash);
}

/// A transaction that was accepted and then sealed stands last in the new
/// block, at the index that it had in the pending block, and its record
/// names the block.
pub proof fn lemma_accepted_is_sealed(
    ledger: Ledger,
    transaction: Transaction,
    output: ExecutionOutput,
    block: Block,
)
    requires
        ledger.consistent(),
        ledger.pending is Some,
        !has_record(ledger.records, transaction.hash),
        ledger.accepted(transaction, output).seals_into(block),
    ensures
        block.transactions@.len() == ledger.pending.unwrap().transactions.len() + 1,
        block.transactions@[ledger.pending.unwrap().transactions.len() as int] == transaction.hash,
        ledger.accepted(transaction, output).sealed_as(block).blocks.last() == block,
        record_of(
            ledger.accepted(transaction, output).sealed_as(block).records,
            transaction.hash,
        ) == Some(
            TransactionRecord::spec_pending(transaction).accepted_with(output.receipt).sealed_in(
                block.number,
                block.hash,
            ),
        ),
        ledger.accepted(transaction, output).sealed_as(block).merged() == ledger.base.overlay(
            ledger.overlay.with_diff(output.state_diff@),
        ),
{
    let mid = ledger.accepted(transaction, output);
    let after = mid.sealed_as(block);
    let record = TransactionRecord::spec_pending(transaction).accepted_with(output.receipt);
    let sealed = mid.pending.unwrap().transactions;
    lemma_accepted_consistent(ledger, transaction, output);
    lemma_pushed(ledger.records, record, transaction.hash);
    assert forall|i: int| 0 <= i < mid.records.len() implies (
    #[trigger] after.records[i]).transaction.hash == mid.records[i].transaction.hash by {}
    lemma_same_hashes(mid.records, after.records, transaction.hash);
    assert(sealed[ledger.pending.unwrap().transactions.len() as int] == transaction.hash);
    assert(sealed.contains(transaction.hash));
    assert(mid.records[ledger.records.len() as int] == record);
    lemma_commit_keeps_merged(mid.base, mid.overlay);
}

/// Sealing changes nothing that a reader of the state sees.
pub proof fn lemma_sealing_keeps_state(ledger: Ledger, block: Block)
    ensures
        ledger.sealed_as(block).merged() == ledger.merged(),
        ledger.sealed_as(block).classes == ledger.classes,
{
    lemma_commit_keeps_merged(ledger.base, ledger.overlay);
}

/// A storage cell that was never written reads zero, and still reads zero
/// after a transaction that does not write it was accepted.
pub proof fn lemma_unwritten_storage_reads_zero(
    ledger: Ledger,
    transaction: Transaction,
    output: ExecutionOutput,
    address: Felt,
    key: Felt,
)
    requires
        !ledger.base.storage.contains_key(StorageSlot { address, key }),
        !ledger.overlay.storage.contains_key(StorageSlot { address, key }),
        !output.state_diff@.writes_storage(address, key),
    ensures
        ledger.merged().storage_at(address, key) == Felt::spec_zero(),
        ledger.accepted(transaction, output).merged().storage_at(address, key)
            == Felt::spec_zero(),
        !ledger.accepted(transaction, output).base.storage.contains_key(
            StorageSlot { address, key },
        ),
        !ledger.accepted(transaction, output).overlay.storage.contains_key(
            StorageSlot { address, key },
        ),
{
    lemma_unwritten_storage_is_zero(ledger.base, ledger.overlay, output.state_diff@, address, key);
}

/// Whatever step the ledger takes, no record is lost or moved, every
/// record keeps its transaction and its status, and a block that a record
/// names stays named: a rejected transaction stays rejected and without a
/// block.
pub proof fn lemma_steps_keep_records(
    ledger: Ledger,
    transaction: Transaction,
    output: ExecutionOutput,
    rejection: Rejection,
    block: Block,
)
    requires
        ledger.consistent(),
    ensures
        evolved(ledger.records, ledger.opened().records),
        evolved(ledger.records, ledger.rejected(transaction, rejection).records),
        ledger.pending is Some ==> evolved(
            ledger.records,
            ledger.accepted(transaction, output).records,
        ),
        ledger.pending is Some ==> evolved(ledger.records, ledger.sealed_as(block).records),
        ledger.pending is Some ==> forall|j: int|
            0 <= j < ledger.records.len() && (#[trigger] ledger.records[j]).status
                == TransactionStatus::Rejected ==> ledger.sealed_as(block).records[j]
                == ledger.records[j],
{
    assert forall|i: int| 0 <= i < ledger.records.len() implies #[trigger] record_step(
        ledger.records[i],
        ledger.opened().records[i],
    ) by {}
    assert forall|i: int| 0 <= i < ledger.records.len() implies #[trigger] record_step(
        ledger.records[i],
        ledger.rejected(transaction, rejection).records[i],
    ) by {}
    if ledger.pending is Some {
        assert forall|i: int| 0 <= i < ledger.records.len() implies #[trigger] record_step(
            ledger.records[i],
            ledger.accepted(transaction, output).records[i],
        ) by {}
        let sealed = ledger.pending.unwrap().transactions;
        assert forall|j: int|
            0 <= j < ledger.records.len() && sealed.contains(
                ledger.records[j].transaction.hash,
            ) implies (#[trigger] ledger.records[j]).awaits_block() by {
            let t = ledger.records[j].transaction.hash;
            let k = sealed.index_of(t);
            assert(placed(ledger.records, sealed[k], None, None));
            lemma_position_unique(ledger.records, j);
        }
        assert forall|i: int| 0 <= i < ledger.records.len() implies #[trigger] record_step(
            ledger.records[i],
            ledger.sealed_as(block).records[i],
        ) by {
            if sealed.contains(ledger.records[i].transaction.hash) {
                assert(ledger.records[i].awaits_block());
            }
        }
        assert forall|j: int|
            0 <= j < ledger.records.len() && (#[trigger] ledger.records[j]).status
                == TransactionStatus::Rejected implies ledger.sealed_as(block).records[j]
            == ledger.records[j] by {
            if sealed.contains(ledger.records[j].transaction.hash) {
                assert(ledger.records[j].awaits_block());
            }
        }
    }
}

} // verus!
