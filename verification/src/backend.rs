//! The backend: it owns the context, the sealed blocks, the records of all
//! transactions, the state and the pending block, and changes them together.
//!
//! The backend has one writer at a time: every function that changes it
//! takes it by exclusive reference, so a step is seen whole or not at all.

use crate::block::{has_hash, Block, BlockStore, PendingBlock, Refused, chain_linked};
use crate::context::{BlockContext, TimestampError};
use crate::felt::{lemma_felt_equal_by_bytes, Felt};
use crate::hash::compute_block_hash;
use crate::keymap::KeyMap;
use crate::ledger::{
    among, bootstrapped, distinct_transactions, hashes_of, lemma_accepted_consistent,
    lemma_bootstrapped, lemma_initial_consistent, lemma_opened_consistent, lemma_position_unique,
    lemma_pushed, lemma_rejected_consistent, lemma_same_hashes, lemma_sealed_consistent, placed,
    sealed_records, BackendConfig, Ledger,
};
use crate::state::LayeredState;
use crate::transaction::{
    has_record, position_of, ExecutedTransaction, ExecutionOutcome, ExecutionOutput,
    RejectReason, Rejection, Transaction, TransactionRecord, TransactionsStore, Transition,
};
use vstd::prelude::*;

verus! {

/// Why the pending block was not sealed.
#[derive(Clone, Copy, Debug, PartialEq, Eq, Structural)]
pub enum SealError {
    /// A sealed block has the hash that the new block would get.
    HashCollision,
}

/// Why the genesis block was not made.
#[derive(Clone, Copy, Debug, PartialEq, Eq, Structural)]
pub enum GenesisError {
    /// The chain has a block, a recorded transaction or an open pending
    /// block already.
    AlreadyInitialized,
    /// Two of the bootstrap transactions have the same hash.
    DuplicateTransaction,
}

impl GenesisError {
    /// What went wrong, in words.
    pub fn message(&self) -> (text: &'static str)
        ensures
            text@ == (match self {
                GenesisError::AlreadyInitialized => "the chain is initialized already"@,
                GenesisError::DuplicateTransaction => "two bootstrap transactions have the same hash"@,
            }),
    {
        match self {
            GenesisError::AlreadyInitialized => "the chain is initialized already",
            GenesisError::DuplicateTransaction => "two bootstrap transactions have the same hash",
        }
    }
}

impl SealError {
    /// What went wrong, in words.
    pub fn message(&self) -> (text: &'static str)
        ensures
            text@ == "a sealed block has the hash of the new block"@,
    {
        "a sealed block has the hash of the new block"
    }
}

/// Tells whether no two of the executed transactions have the same hash.
pub fn all_distinct(items: &Vec<ExecutedTransaction>) -> (distinct: bool)
    ensures
        distinct == distinct_transactions(items@),
{
    let mut seen: KeyMap<Felt, bool> = KeyMap::new();
    let mut i: usize = 0;
    while i < items.len()
        invariant
            i <= items.len(),
            seen.wf(),
            distinct_transactions(items@.take(i as int)),
            forall|h: Felt| seen@.contains_key(h) <==> among(items@.take(i as int), h),
        decreases items.len() - i,
    {
        let hash = items[i].transaction.hash;
        if seen.contains_key(&hash) {
            proof {
                let k = choose|k: int|
                    0 <= k < items@.take(i as int).len() && (#[trigger] items@.take(
                        i as int,
                    )[k]).transaction.hash == hash;
                assert(items@[k].transaction.hash == items@[i as int].transaction.hash);
            }
            return false;
        }
        seen.insert(hash, true);
        proof {
            let before = items@.take(i as int);
            let after = items@.take(i + 1);
            assert forall|a: int, b: int| 0 <= a < b < after.len() implies (
            #[trigger] after[a]).transaction.hash != (#[trigger] after[b]).transaction.hash by {
                if b < i {
                    assert(before[a].transaction.hash != before[b].transaction.hash);
                } else {
                    if after[a].transaction.hash == hash {
                        assert(before[a].transaction.hash == hash);
                        assert(among(before, hash));
                    }
                }
            }
            assert forall|h: Felt| seen@.contains_key(h) <==> among(after, h) by {
                if among(before, h) {
                    let k = choose|k: int|
                        0 <= k < before.len() && (#[trigger] before[k]).transaction.hash == h;
                    assert(after[k].transaction.hash == h);
                }
                if among(after, h) {
                    let k = choose|k: int|
                        0 <= k < after.len() && (#[trigger] after[k]).transaction.hash == h;
                    if k < i {
                        assert(before[k].transaction.hash == h);
                    }
                }
                if h == hash {
                    assert(after[i as int].transaction.hash == h);
                }
            }
        }
        i = i + 1;
    }
    proof {
        assert(items@.take(items.len() as int) =~= items@);
    }
    true
}

/// What became of a transaction that was handed to the backend.
#[derive(Clone, Copy, Debug, PartialEq, Eq, Structural)]
pub enum Handled {
    /// A transaction with this hash is recorded already; nothing changed.
    Duplicate,
    /// The transaction is recorded as rejected; nothing else changed.
    Rejected(RejectReason),
    /// The transaction is recorded as accepted and stands in the pending
    /// block.
    Accepted,
    /// The transaction is recorded as accepted and stands in the block with
    /// this number, which was sealed at once.
    Sealed(u64),
}

/// The backend of the sequencer.
pub struct Backend {
    config: BackendConfig,
    context: BlockContext,
    blocks: BlockStore,
    transactions: TransactionsStore,
    state: LayeredState,
    pending: Option<PendingBlock>,
}

impl View for Backend {
    type V = Ledger;

    closed spec fn view(&self) -> Ledger {
        Ledger {
            config: self.config,
            context: self.context,
            blocks: self.blocks.sealed(),
            records: self.transactions.records(),
            pending: match self.pending {
                Some(p) => Some(p@),
                None => None,
            },
            base: self.state.base(),
            overlay: self.state.pending(),
            classes: self.state.classes(),
        }
    }
}

impl Backend {
    /// The invariant of the backend: that of each of its parts, and a
    /// consistent ledger.
    pub closed spec fn wf(&self) -> bool {
        &&& self.blocks.wf()
        &&& self.transactions.wf()
        &&& self.state.wf()
        &&& self@.consistent()
    }

    /// A backend that meets its invariant holds a consistent ledger, and
    /// its sealed blocks form one chain.
    pub proof fn lemma_invariant(&self)
        requires
            self.wf(),
        ensures
            self@.consistent(),
            chain_linked(self@.blocks),
    {
        self.blocks.lemma_chain_linked();
    }

    /// A backend without blocks, transactions or state.
    pub fn new(config: BackendConfig) -> (backend: Backend)
        ensures
            backend.wf(),
            backend@ == Ledger::initial(config),
    {
        let backend = Backend {
            config,
            context: BlockContext::new(config.genesis_timestamp, config.gas_price),
            blocks: BlockStore::new(),
            transactions: TransactionsStore::new(),
            state: LayeredState::new(),
            pending: None,
        };
        proof {
            lemma_initial_consistent(config);
            assert(backend@.blocks =~= Ledger::initial(config).blocks);
            assert(backend@.records =~= Ledger::initial(config).records);
        }
        backend
    }

    /// How the backend was set up.
    pub fn config(&self) -> (config: BackendConfig)
        ensures
            config == self@.config,
    {
        self.config
    }

    /// The context at the head of the chain.
    pub fn block_context(&self) -> (context: BlockContext)
        ensures
            context == self@.context,
    {
        self.context
    }

    /// The sealed blocks.
    pub fn blocks(&self) -> (store: &BlockStore)
        ensures
            store.sealed() == self@.blocks,
            self.wf() ==> store.wf(),
    {
        &self.blocks
    }

    /// The records of all transactions.
    pub fn transactions(&self) -> (store: &TransactionsStore)
        ensures
            store.records() == self@.records,
            self.wf() ==> store.wf(),
    {
        &self.transactions
    }

    /// The state in its two layers.
    pub fn state(&self) -> (state: &LayeredState)
        ensures
            state.base() == self@.base,
            state.pending() == self@.overlay,
            state.classes() == self@.classes,
            self.wf() ==> state.wf(),
    {
        &self.state
    }

    /// The pending block, while one is open.
    pub fn pending_block(&self) -> (pending: Option<&PendingBlock>)
        ensures
            match pending {
                Some(p) => self@.pending == Some(p@),
                None => self@.pending is None,
            },
    {
        self.pending.as_ref()
    }

    /// Whether a pending block is open.
    pub fn has_pending_block(&self) -> (open: bool)
        ensures
            open == self@.pending is Some,
    {
        self.pending.is_some()
    }

    /// Makes the genesis block: opens a pending block, accepts each of the
    /// bootstrap transactions, which the execution engine has executed, in
    /// their order, and seals the result as block 0.
    ///
    /// Where the chain is not fresh, or two bootstrap transactions have the
    /// same hash, nothing changes.
    pub fn generate_genesis_block(&mut self, bootstrap: Vec<ExecutedTransaction>) -> (result:
        Result<(), GenesisError>)
        requires
            old(self).wf(),
        ensures
            final(self).wf(),
            match result {
                Ok(()) => {
                    &&& old(self)@.is_fresh()
                    &&& distinct_transactions(bootstrap@)
                    &&& final(self)@.blocks.len() == 1
                    &&& final(self)@.blocks[0].transactions@ == hashes_of(bootstrap@)
                    &&& bootstrapped(old(self)@.opened(), bootstrap@).seals_into(
                        final(self)@.blocks[0],
                    )
                    &&& final(self)@ == bootstrapped(old(self)@.opened(), bootstrap@).sealed_as(
                        final(self)@.blocks[0],
                    )
                },
                Err(GenesisError::AlreadyInitialized) => {
                    &&& !old(self)@.is_fresh()
                    &&& final(self)@ == old(self)@
                },
                Err(GenesisError::DuplicateTransaction) => {
                    &&& old(self)@.is_fresh()
                    &&& !distinct_transactions(bootstrap@)
                    &&& final(self)@ == old(self)@
                },
            },
    {
        if self.blocks.len() != 0 || self.transactions.len() != 0 || self.pending.is_some() {
            return Err(GenesisError::AlreadyInitialized);
        }
        if !all_distinct(&bootstrap) {
            return Err(GenesisError::DuplicateTransaction);
        }
        self.generate_pending_block();
        let ghost start = self@;
        let ghost items = bootstrap@;
        let mut bootstrap = bootstrap;
        let mut reversed: Vec<ExecutedTransaction> = Vec::new();
        while bootstrap.len() > 0
            invariant
                bootstrap@ == items.take(bootstrap@.len() as int),
                bootstrap@.len() + reversed@.len() == items.len(),
                forall|k: int|
                    0 <= k < reversed@.len() ==> (#[trigger] reversed@[k]) == items[items.len() - 1
                        - k],
            decreases bootstrap.len(),
        {
            let ghost n = bootstrap@.len();
            let item = bootstrap.pop().unwrap();
            reversed.push(item);
            proof {
                assert(bootstrap@ =~= items.take(n - 1));
            }
        }
        while reversed.len() > 0
            invariant
                self.wf(),
                start.consistent(),
                start.pending is Some,
                start.records.len() == 0,
                distinct_transactions(items),
                reversed@.len() <= items.len(),
                forall|k: int|
                    0 <= k < reversed@.len() ==> (#[trigger] reversed@[k]) == items[items.len() - 1
                        - k],
                self@ == bootstrapped(start, items.take(items.len() - reversed@.len())),
            decreases reversed.len(),
        {
            let ghost done = items.len() - reversed@.len();
            let item = reversed.pop().unwrap();
            let ExecutedTransaction { transaction, output } = item;
            proof {
                assert(item == items[done]);
                let taken = items.take(done);
                assert forall|i: int, j: int| 0 <= i < j < taken.len() implies (
                #[trigger] taken[i]).transaction.hash != (#[trigger] taken[j]).transaction.hash by {
                    assert(items[i].transaction.hash != items[j].transaction.hash);
                }
                assert forall|k: int| 0 <= k < taken.len() implies !has_record(
                    start.records,
                    (#[trigger] taken[k]).transaction.hash,
                ) by {}
                lemma_bootstrapped(start, taken);
                if among(taken, transaction.hash) {
                    let k = choose|k: int|
                        0 <= k < taken.len() && (#[trigger] taken[k]).transaction.hash
                            == transaction.hash;
                    assert(items[k].transaction.hash != items[done].transaction.hash);
                }
            }
            self.accept(transaction, output);
            proof {
                assert(items.take(done + 1).drop_last() =~= items.take(done));
                assert(items.take(done + 1).last() == items[done]);
            }
        }
        proof {
            assert(items.take(items.len() as int) =~= items);
            assert forall|k: int| 0 <= k < items.len() implies !has_record(
                start.records,
                (#[trigger] items[k]).transaction.hash,
            ) by {}
            lemma_bootstrapped(start, items);
            assert(start.pending.unwrap().transactions + hashes_of(items) =~= hashes_of(items));
        }
        let sealed = self.generate_latest_block();
        proof {
            assert(sealed is Ok);
        }
        Ok(())
    }

    /// Queues `timestamp` for the next pending block. A timestamp earlier
    /// than the current one is refused, and nothing changes.
    pub fn set_next_block_timestamp(&mut self, timestamp: u64) -> (result: Result<
        (),
        TimestampError,
    >)
        requires
            old(self).wf(),
        ensures
            final(self).wf(),
            match result {
                Ok(()) => old(self)@.context.timestamp <= timestamp && final(self)@ == (Ledger {
                    context: old(self)@.context.queued(timestamp),
                    ..old(self)@
                }),
                Err(e) => e == TimestampError::Regression && timestamp < old(
                    self,
                )@.context.timestamp && final(self)@ == old(self)@,
            },
    {
        let result = self.context.set_next_block_timestamp(timestamp);
        proof {
            self.lemma_context_changed(*old(self));
        }
        result
    }

    /// Queues the current timestamp plus `delta` for the next pending
    /// block. Where the sum is more than a timestamp can hold, nothing
    /// changes.
    pub fn increase_next_block_timestamp(&mut self, delta: u64) -> (result: Result<
        (),
        TimestampError,
    >)
        requires
            old(self).wf(),
        ensures
            final(self).wf(),
            match result {
                Ok(()) => old(self)@.context.timestamp + delta <= u64::MAX && final(self)@ == (
                Ledger {
                    context: old(self)@.context.queued(
                        (old(self)@.context.timestamp + delta) as u64,
                    ),
                    ..old(self)@
                }),
                Err(e) => e == TimestampError::Overflow && old(self)@.context.timestamp + delta
                    > u64::MAX && final(self)@ == old(self)@,
            },
    {
        let result = self.context.increase_next_block_timestamp(delta);
        proof {
            self.lemma_context_changed(*old(self));
        }
        result
    }

    /// A change of the queued timestamp alone keeps the invariant.
    proof fn lemma_context_changed(&self, before: Backend)
        requires
            before.wf(),
            self.config == before.config,
            self.blocks == before.blocks,
            self.transactions == before.transactions,
            self.state == before.state,
            self.pending == before.pending,
            self.context.wf(),
            self.context.block_number == before.context.block_number,
            self.context.timestamp == before.context.timestamp,
        ensures
            self.wf(),
            self@ == (Ledger { context: self.context, ..before@ }),
    {
        let old_ledger = before@;
        let ledger = self@;
        assert forall|j: int| 0 <= j < ledger.records.len() implies #[trigger] crate::ledger::record_ok(
            ledger.blocks,
            ledger.pending,
            ledger.records,
            j,
        ) by {
            assert(crate::ledger::record_ok(
                old_ledger.blocks,
                old_ledger.pending,
                old_ledger.records,
                j,
            ));
        }
        assert forall|n: int| 0 <= n < ledger.blocks.len() implies #[trigger] crate::ledger::block_ok(
            ledger.blocks,
            ledger.records,
            n,
        ) by {
            assert(crate::ledger::block_ok(old_ledger.blocks, old_ledger.records, n));
        }
    }

    /// Opens a pending block at the current context. A queued timestamp
    /// becomes the current timestamp first, and is queued no longer.
    /// Where a pending block is open already, its transactions stay in it.
    pub fn generate_pending_block(&mut self)
        requires
            old(self).wf(),
        ensures
            final(self).wf(),
            final(self)@ == old(self)@.opened(),
    {
        self.context.open();
        if self.pending.is_none() {
            self.pending = Some(PendingBlock::new());
        }
        proof {
            lemma_opened_consistent(old(self)@);
            assert(self@.pending == old(self)@.opened().pending);
        }
    }

    /// Why the transaction would be turned away before it is executed:
    /// because its nonce is not the current nonce of its sender, or because
    /// it offers no fee where one is asked for.
    pub fn validate_transaction(&self, transaction: &Transaction) -> (reason: Option<RejectReason>)
        requires
            self.wf(),
        ensures
            reason == self@.precheck(*transaction),
    {
        let nonce = self.state.nonce(transaction.sender);
        if !transaction.nonce.equals(&nonce) {
            Some(RejectReason::InvalidNonce)
        } else if transaction.max_fee == 0 && !self.config.allow_zero_max_fee {
            Some(RejectReason::InsufficientFee)
        } else {
            None
        }
    }

    /// Records a transaction as rejected.
    fn reject(&mut self, transaction: Transaction, rejection: Rejection)
        requires
            old(self).wf(),
            !has_record(old(self)@.records, transaction.hash),
        ensures
            final(self).wf(),
            final(self)@ == old(self)@.rejected(transaction, rejection),
    {
        let hash = transaction.hash;
        let ghost before = self.transactions.records();
        let ghost pending = TransactionRecord::spec_pending(transaction);
        let inserted = self.transactions.insert(transaction);
        proof {
            lemma_pushed(before, pending, hash);
        }
        let changed = self.transactions.transition(&hash, Transition::Reject(rejection));
        proof {
            assert(inserted is Ok);
            assert(before.push(pending)[before.len() as int] == pending);
            assert(changed is Ok);
            assert(self.transactions.records() =~= before.push(pending.rejected_with(rejection)));
            lemma_rejected_consistent(old(self)@, transaction, rejection);
        }
    }

    /// Records a transaction as accepted, writes its changes into the
    /// pending layer of the state, and puts it into the pending block.
    fn accept(&mut self, transaction: Transaction, output: ExecutionOutput)
        requires
            old(self).wf(),
            old(self)@.pending is Some,
            !has_record(old(self)@.records, transaction.hash),
        ensures
            final(self).wf(),
            final(self)@ == old(self)@.accepted(transaction, output),
    {
        let hash = transaction.hash;
        let ghost before = self.transactions.records();
        let ghost pending_record = TransactionRecord::spec_pending(transaction);
        let ExecutionOutput { state_diff, declared_class, receipt } = output;
        self.state.apply_diff(&state_diff);
        match declared_class {
            Some(definition) => {
                self.state.declare_class(definition);
            },
            None => {},
        }
        let inserted = self.transactions.insert(transaction);
        proof {
            lemma_pushed(before, pending_record, hash);
        }
        let changed = self.transactions.transition(&hash, Transition::Accept(receipt));
        let mut pending = self.pending.take().unwrap();
        pending.transactions.push(hash);
        pending.state_diff.extend(state_diff);
        self.pending = Some(pending);
        proof {
            assert(inserted is Ok);
            assert(before.push(pending_record)[before.len() as int] == pending_record);
            assert(changed is Ok);
            assert(self.transactions.records() =~= before.push(
                pending_record.accepted_with(receipt),
            ));
            lemma_accepted_consistent(old(self)@, transaction, output);
            assert(self@.pending == old(self)@.accepted(transaction, output).pending);
        }
    }

    /// Seals the pending block: commits its changes to the base state,
    /// gives it the next number and the hash of its content, takes it into
    /// the store under both, names it in the records of its transactions,
    /// closes the pending block and lets the context name the new block.
    ///
    /// Where a sealed block has the hash that the new block would get,
    /// nothing changes.
    pub fn generate_latest_block(&mut self) -> (result: Result<u64, SealError>)
        requires
            old(self).wf(),
            old(self)@.pending is Some,
        ensures
            final(self).wf(),
            match result {
                Ok(number) => {
                    &&& !old(self)@.has_digest(old(self)@.next_digest())
                    &&& number == old(self)@.blocks.len()
                    &&& final(self)@.blocks.len() == number + 1
                    &&& old(self)@.seals_into(final(self)@.blocks.last())
                    &&& final(self)@ == old(self)@.sealed_as(final(self)@.blocks.last())
                },
                Err(e) => {
                    &&& e == SealError::HashCollision
                    &&& old(self)@.has_digest(old(self)@.next_digest())
                    &&& final(self)@ == old(self)@
                },
            },
    {
        let ghost ledger = self@;
        let ghost sealed = ledger.pending.unwrap().transactions;
        let ghost before = self.transactions.records();
        let pending = self.pending.take().unwrap();
        let PendingBlock { transactions, state_diff } = pending;
        let count = transactions.len();
        let number = self.blocks.len() as u64;
        let parent = match self.blocks.latest() {
            Some(b) => b.hash,
            None => Felt::zero(),
        };
        let timestamp = self.context.timestamp;
        let hash = compute_block_hash(number, timestamp, &parent, &transactions);
        let block = Block { number, hash, parent_hash: parent, timestamp, transactions, state_diff };
        proof {
            assert(ledger.seals_into(block));
            if ledger.has_digest(ledger.next_digest()) {
                let i = choose|i: int|
                    0 <= i < ledger.blocks.len() && (#[trigger] ledger.blocks[i]).hash@
                        == ledger.next_digest();
                lemma_felt_equal_by_bytes(ledger.blocks[i].hash, hash);
                assert(has_hash(ledger.blocks, hash));
            }
            if has_hash(ledger.blocks, hash) {
                let i = choose|i: int|
                    0 <= i < ledger.blocks.len() && (#[trigger] ledger.blocks[i]).hash == hash;
                assert(ledger.blocks[i].hash@ == ledger.next_digest());
            }
        }
        match self.blocks.insert(block) {
            Err(refused) => {
                let Refused { reason: _, block } = refused;
                let Block { transactions, state_diff, .. } = block;
                self.pending = Some(PendingBlock { transactions, state_diff });
                proof {
                    assert(self@.pending == ledger.pending);
                    assert(self@ == ledger);
                }
                Err(SealError::HashCollision)
            },
            Ok(_) => {
                let mut i: usize = 0;
                while i < count
                    invariant
                        i <= count,
                        count == sealed.len(),
                        ledger.consistent(),
                        ledger.pending is Some,
                        sealed == ledger.pending.unwrap().transactions,
                        before == ledger.records,
                        self.blocks.wf(),
                        self.blocks.sealed() == ledger.blocks.push(block),
                        block.transactions@ == sealed,
                        block.number == number,
                        block.hash == hash,
                        self.transactions.wf(),
                        self.transactions.records() == sealed_records(
                            before,
                            sealed.take(i as int),
                            number,
                            hash,
                        ),
                        self.state == old(self).state,
                        self.context == old(self).context,
                        self.config == old(self).config,
                        self.pending is None,
                    decreases count - i,
                {
                    let t = match self.blocks.latest() {
                        Some(b) => b.transactions[i],
                        None => Felt::zero(),
                    };
                    let ghost current = self.transactions.records();
                    proof {
                        assert(t == sealed[i as int]);
                        assert(placed(before, t, None, None));
                        assert forall|j: int| 0 <= j < before.len() implies (
                        #[trigger] current[j]).transaction.hash
                            == before[j].transaction.hash by {}
                        lemma_same_hashes(before, current, t);
                        let p = position_of(before, t);
                        assert(!sealed.take(i as int).contains(t)) by {
                            if sealed.take(i as int).contains(t) {
                                let k = sealed.take(i as int).index_of(t);
                                assert(sealed[k] == sealed[i as int]);
                            }
                        }
                        assert(current[p] == before[p]);
                    }
                    let changed = self.transactions.transition(&t, Transition::Seal(number, hash));
                    proof {
                        assert(changed is Ok);
                        let p = position_of(before, t);
                        let next = sealed_records(before, sealed.take(i + 1), number, hash);
                        assert forall|j: int| 0 <= j < before.len() implies (
                        #[trigger] self.transactions.records()[j]) == next[j] by {
                            let h = before[j].transaction.hash;
                            if j == p {
                                assert(sealed.take(i + 1)[i as int] == t);
                            } else {
                                lemma_position_unique(before, j);
                                if sealed.take(i + 1).contains(h) {
                                    let k = sealed.take(i + 1).index_of(h);
                                    assert(sealed.take(i as int)[k] == h);
                                }
                                if sealed.take(i as int).contains(h) {
                                    let k = sealed.take(i as int).index_of(h);
                                    assert(sealed.take(i + 1)[k] == h);
                                }
                            }
                        }
                        assert(self.transactions.records() =~= next);
                    }
                    i = i + 1;
                }
                self.state.commit();
                self.context.block_number = number;
                proof {
                    assert(sealed.take(count as int) =~= sealed);
                    lemma_sealed_consistent(ledger, block);
                    assert(self@.blocks.last() == block);
                    assert(self@ == ledger.sealed_as(block));
                }
                Ok(number)
            },
        }
    }

    /// Takes in a transaction together with the answer of the execution
    /// engine, which has executed it against the state as it is now.
    ///
    /// A transaction whose hash is recorded already changes nothing. Any
    /// other transaction is recorded: as rejected, where it is turned away
    /// or its execution reverted, and then nothing else changes; as
    /// accepted otherwise, and then its changes are written into the
    /// pending layer of the state and it joins the pending block. Where the
    /// backend seals at once, the pending block is sealed then.
    pub fn handle_transaction(&mut self, transaction: Transaction, outcome: ExecutionOutcome) -> (handled:
        Handled)
        requires
            old(self).wf(),
            old(self)@.pending is Some,
        ensures
            final(self).wf(),
            match handled {
                Handled::Duplicate => {
                    &&& has_record(old(self)@.records, transaction.hash)
                    &&& final(self)@ == old(self)@
                },
                Handled::Rejected(reason) => {
                    &&& !has_record(old(self)@.records, transaction.hash)
                    &&& old(self)@.verdict(transaction, outcome) == Some(reason)
                    &&& final(self)@ == old(self)@.rejected(
                        transaction,
                        Ledger::rejection_for(reason, outcome),
                    )
                },
                Handled::Accepted => {
                    &&& !has_record(old(self)@.records, transaction.hash)
                    &&& old(self)@.verdict(transaction, outcome) is None
                    &&& outcome matches ExecutionOutcome::Succeeded(output)
                    &&& final(self)@ == old(self)@.accepted(transaction, output)
                    &&& old(self)@.config.auto_mine ==> final(self)@.has_digest(
                        final(self)@.next_digest(),
                    )
                },
                Handled::Sealed(number) => {
                    &&& !has_record(old(self)@.records, transaction.hash)
                    &&& old(self)@.verdict(transaction, outcome) is None
                    &&& old(self)@.config.auto_mine
                    &&& outcome matches ExecutionOutcome::Succeeded(output)
                    &&& number == old(self)@.blocks.len()
                    &&& final(self)@.blocks.len() == number + 1
                    &&& old(self)@.accepted(transaction, output).seals_into(
                        final(self)@.blocks.last(),
                    )
                    &&& final(self)@ == old(self)@.accepted(transaction, output).sealed_as(
                        final(self)@.blocks.last(),
                    )
                },
            },
    {
        if self.transactions.contains(&transaction.hash) {
            return Handled::Duplicate;
        }
        match self.validate_transaction(&transaction) {
            Some(RejectReason::InvalidNonce) => {
                self.reject(transaction, Rejection::InvalidNonce);
                Handled::Rejected(RejectReason::InvalidNonce)
            },
            Some(_) => {
                self.reject(transaction, Rejection::InsufficientFee);
                Handled::Rejected(RejectReason::InsufficientFee)
            },
            None => match outcome {
                ExecutionOutcome::Reverted(receipt) => {
                    self.reject(transaction, Rejection::Reverted(receipt));
                    Handled::Rejected(RejectReason::Reverted)
                },
                ExecutionOutcome::Succeeded(output) => {
                    self.accept(transaction, output);
                    if self.config.auto_mine {
                        match self.generate_latest_block() {
                            Ok(number) => Handled::Sealed(number),
                            Err(_) => Handled::Accepted,
                        }
                    } else {
                        Handled::Accepted
                    }
                },
            },
        }
    }
}

} // verus!
