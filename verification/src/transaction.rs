//! Transactions, their receipts, and the record that the chain keeps of
//! every transaction that was ever submitted.

use crate::felt::Felt;
use crate::keymap::KeyMap;
use crate::state::{ClassDefinition, StateDiff};
use vstd::prelude::*;

verus! {

/// A transaction as it was submitted.
#[derive(Debug)]
pub struct Transaction {
    pub hash: Felt,
    pub sender: Felt,
    pub calldata: Vec<Felt>,
    pub nonce: Felt,
    pub max_fee: u128,
}

/// Where a transaction stands in its life. A transaction starts as
/// `Pending` and becomes `AcceptedOnL2` or `Rejected` once; it never goes
/// back and never changes again.
#[derive(Clone, Copy, Debug, PartialEq, Eq, Structural)]
pub enum TransactionStatus {
    Pending,
    AcceptedOnL2,
    Rejected,
}

/// Why a transaction was rejected.
#[derive(Clone, Copy, Debug, PartialEq, Eq, Structural)]
pub enum RejectReason {
    /// The nonce of the transaction is not the current nonce of its sender.
    InvalidNonce,
    /// The transaction offers no fee where a fee is asked for.
    InsufficientFee,
    /// The execution of the transaction reverted.
    Reverted,
}

impl RejectReason {
    /// The reason, in words.
    pub fn message(&self) -> (text: &'static str)
        ensures
            text@ == (match self {
                RejectReason::InvalidNonce => "the nonce is not the current nonce of the sender"@,
                RejectReason::InsufficientFee => "the transaction offers no fee"@,
                RejectReason::Reverted => "the execution reverted"@,
            }),
    {
        match self {
            RejectReason::InvalidNonce => "the nonce is not the current nonce of the sender",
            RejectReason::InsufficientFee => "the transaction offers no fee",
            RejectReason::Reverted => "the execution reverted",
        }
    }
}

/// A rejection together with what it leaves in the record: a transaction
/// whose execution reverted leaves the receipt of that execution; one that
/// was turned away before execution leaves none.
#[derive(Debug)]
pub enum Rejection {
    InvalidNonce,
    InsufficientFee,
    Reverted(Receipt),
}

impl Rejection {
    /// Why the transaction is rejected.
    pub open spec fn reason(self) -> RejectReason {
        match self {
            Rejection::InvalidNonce => RejectReason::InvalidNonce,
            Rejection::InsufficientFee => RejectReason::InsufficientFee,
            Rejection::Reverted(_) => RejectReason::Reverted,
        }
    }

    /// The receipt that the rejection leaves in the record, if any.
    pub open spec fn receipt(self) -> Option<Receipt> {
        match self {
            Rejection::Reverted(receipt) => Some(receipt),
            _ => None,
        }
    }
}

/// An event that a contract emitted.
#[derive(Debug)]
pub struct Event {
    pub from_address: Felt,
    pub keys: Vec<Felt>,
    pub data: Vec<Felt>,
}

/// What the execution of a transaction came to.
#[derive(Debug)]
pub struct Receipt {
    pub transaction_hash: Felt,
    pub actual_fee: u128,
    pub gas_consumed: u64,
    pub events: Vec<Event>,
    /// Why the execution reverted, where it did.
    pub revert_reason: Option<String>,
}

/// What the execution engine hands back for a transaction that succeeded.
#[derive(Debug)]
pub struct ExecutionOutput {
    pub state_diff: StateDiff,
    /// The class that the transaction declared, where it declared one.
    pub declared_class: Option<ClassDefinition>,
    pub receipt: Receipt,
}

/// A transaction together with what its execution, which succeeded, came to.
#[derive(Debug)]
pub struct ExecutedTransaction {
    pub transaction: Transaction,
    pub output: ExecutionOutput,
}

/// The answer of the execution engine for one transaction. That a
/// transaction reverts is an ordinary answer, not an error: the engine then
/// hands back a receipt that holds the reason, and changes nothing.
#[derive(Debug)]
pub enum ExecutionOutcome {
    Succeeded(ExecutionOutput),
    Reverted(Receipt),
}

/// What the chain keeps of one transaction.
#[derive(Debug)]
pub struct TransactionRecord {
    pub transaction: Transaction,
    pub status: TransactionStatus,
    /// The number of the sealed block that holds the transaction.
    pub block_number: Option<u64>,
    /// The hash of the sealed block that holds the transaction.
    pub block_hash: Option<Felt>,
    /// The receipt, for a transaction that was executed.
    pub receipt: Option<Receipt>,
    /// Why the transaction was rejected, where it was.
    pub rejection: Option<RejectReason>,
}

impl TransactionRecord {
    /// The record of a transaction that was submitted and not decided yet.
    pub open spec fn spec_pending(transaction: Transaction) -> TransactionRecord {
        TransactionRecord {
            transaction,
            status: TransactionStatus::Pending,
            block_number: None,
            block_hash: None,
            receipt: None,
            rejection: None,
        }
    }

    /// This record after its transaction was accepted.
    pub open spec fn accepted_with(self, receipt: Receipt) -> TransactionRecord {
        TransactionRecord {
            transaction: self.transaction,
            status: TransactionStatus::AcceptedOnL2,
            block_number: None,
            block_hash: None,
            receipt: Some(receipt),
            rejection: None,
        }
    }

    /// This record after its transaction was rejected.
    pub open spec fn rejected_with(self, rejection: Rejection) -> TransactionRecord {
        TransactionRecord {
            transaction: self.transaction,
            status: TransactionStatus::Rejected,
            block_number: None,
            block_hash: None,
            receipt: rejection.receipt(),
            rejection: Some(rejection.reason()),
        }
    }

    /// This record after the block that holds its transaction was sealed.
    pub open spec fn sealed_in(self, number: u64, hash: Felt) -> TransactionRecord {
        TransactionRecord {
            transaction: self.transaction,
            status: self.status,
            block_number: Some(number),
            block_hash: Some(hash),
            receipt: self.receipt,
            rejection: self.rejection,
        }
    }

    /// Whether the transaction was accepted and waits for its block to be
    /// sealed.
    pub open spec fn awaits_block(self) -> bool {
        self.status == TransactionStatus::AcceptedOnL2 && self.block_number is None
    }

    /// Whether the transaction was executed: it was accepted, or it was
    /// rejected because its execution reverted.
    pub open spec fn was_executed(self) -> bool {
        self.status == TransactionStatus::AcceptedOnL2 || self.rejection == Some(
            RejectReason::Reverted,
        )
    }

    /// What holds of every record: only an accepted transaction has a block,
    /// a block number comes with a block hash, a reason for rejection
    /// stands exactly in the records of rejected transactions, and a
    /// receipt exactly in the records of transactions that were executed.
    pub open spec fn consistent(self) -> bool {
        &&& self.block_number is Some <==> self.block_hash is Some
        &&& self.block_number is Some ==> self.status == TransactionStatus::AcceptedOnL2
        &&& self.rejection is Some <==> self.status == TransactionStatus::Rejected
        &&& self.receipt is Some <==> self.was_executed()
    }
}

/// Whether a record may become another: the transaction stays, the status
/// stays or leaves `Pending`, and a block, once given, stays.
pub open spec fn record_step(before: TransactionRecord, after: TransactionRecord) -> bool {
    &&& after.transaction == before.transaction
    &&& after.status == before.status || before.status == TransactionStatus::Pending
    &&& before.block_number is Some ==> after.block_number == before.block_number
        && after.block_hash == before.block_hash
}

/// Whether the records `after` can have come from the records `before`:
/// none was removed or moved, and each changed only as a record may.
pub open spec fn evolved(before: Seq<TransactionRecord>, after: Seq<TransactionRecord>) -> bool {
    &&& before.len() <= after.len()
    &&& forall|i: int| 0 <= i < before.len() ==> #[trigger] record_step(before[i], after[i])
}

/// Whether a record is kept for the hash.
pub open spec fn has_record(records: Seq<TransactionRecord>, hash: Felt) -> bool {
    exists|i: int| 0 <= i < records.len() && (#[trigger] records[i]).transaction.hash == hash
}

/// The position of the record that is kept for the hash.
pub open spec fn position_of(records: Seq<TransactionRecord>, hash: Felt) -> int {
    choose|i: int| 0 <= i < records.len() && (#[trigger] records[i]).transaction.hash == hash
}

/// The record that is kept for the hash, if any.
pub open spec fn record_of(records: Seq<TransactionRecord>, hash: Felt) -> Option<
    TransactionRecord,
> {
    if has_record(records, hash) {
        Some(records[position_of(records, hash)])
    } else {
        None
    }
}

/// What holds of the record at position `i`: it is consistent, and the
/// index leads from its hash to its position.
pub open spec fn slot_ok(
    records: Seq<TransactionRecord>,
    positions: Map<Felt, usize>,
    i: int,
) -> bool {
    &&& records[i].consistent()
    &&& positions.contains_key(records[i].transaction.hash)
    &&& positions[records[i].transaction.hash] == i
}

/// What holds of the records and of the index from hash to position.
pub open spec fn records_ok(records: Seq<TransactionRecord>, positions: Map<Felt, usize>) -> bool {
    &&& forall|i: int| 0 <= i < records.len() ==> #[trigger] slot_ok(records, positions, i)
    &&& forall|h: Felt| #[trigger]
        positions.contains_key(h) ==> positions[h] < records.len()
            && records[positions[h] as int].transaction.hash == h
}

/// Why the status of a record was not changed.
#[derive(Clone, Copy, Debug, PartialEq, Eq, Structural)]
pub enum TransitionError {
    /// No record is kept for the hash.
    UnknownTransaction,
    /// The record is not in the status from which the change starts.
    WrongStatus,
}

/// The change that is asked of a record.
pub enum Transition {
    /// From `Pending` to `AcceptedOnL2`, with the receipt of the execution.
    Accept(Receipt),
    /// From `Pending` to `Rejected`.
    Reject(Rejection),
    /// The block that holds an accepted transaction was sealed.
    Seal(u64, Felt),
}

impl Transition {
    /// Whether the change may start from the record.
    pub open spec fn starts_from(self, record: TransactionRecord) -> bool {
        match self {
            Transition::Accept(_) => record.status == TransactionStatus::Pending,
            Transition::Reject(_) => record.status == TransactionStatus::Pending,
            Transition::Seal(_, _) => record.awaits_block(),
        }
    }

    /// The record after the change.
    pub open spec fn applied_to(self, record: TransactionRecord) -> TransactionRecord {
        match self {
            Transition::Accept(receipt) => record.accepted_with(receipt),
            Transition::Reject(rejection) => record.rejected_with(rejection),
            Transition::Seal(number, hash) => record.sealed_in(number, hash),
        }
    }
}

/// Every transaction that was ever submitted, by hash, in the order of
/// submission. Records are only added; a record changes only by the
/// transitions of [`Transition`].
pub struct TransactionsStore {
    records: Vec<TransactionRecord>,
    positions: KeyMap<Felt, usize>,
}

impl TransactionsStore {
    /// The records in the order in which the transactions were submitted.
    pub closed spec fn records(&self) -> Seq<TransactionRecord> {
        self.records@
    }

    /// The invariant of the store.
    pub closed spec fn wf(&self) -> bool {
        &&& self.positions.wf()
        &&& records_ok(self.records@, self.positions@)
    }

    /// In a store that meets its invariant every record is consistent and no
    /// two records are for the same hash.
    pub proof fn lemma_records(&self)
        requires
            self.wf(),
        ensures
            forall|i: int|
                0 <= i < self.records().len() ==> (#[trigger] self.records()[i]).consistent(),
            forall|i: int, j: int|
                0 <= i < j < self.records().len() ==> (
                #[trigger] self.records()[i]).transaction.hash != (
                #[trigger] self.records()[j]).transaction.hash,
            forall|i: int|
                0 <= i < self.records().len() ==> position_of(
                    self.records(),
                    (#[trigger] self.records()[i]).transaction.hash,
                ) == i,
    {
        let records = self.records@;
        let positions = self.positions@;
        assert forall|i: int| 0 <= i < records.len() implies (#[trigger] records[i]).consistent() by {
            assert(slot_ok(records, positions, i));
        }
        assert forall|i: int, j: int| 0 <= i < j < records.len() implies (
        #[trigger] records[i]).transaction.hash != (#[trigger] records[j]).transaction.hash by {
            assert(slot_ok(records, positions, i));
            assert(slot_ok(records, positions, j));
        }
        assert forall|i: int| 0 <= i < records.len() implies position_of(
            records,
            (#[trigger] records[i]).transaction.hash,
        ) == i by {
            let p = position_of(records, records[i].transaction.hash);
            assert(slot_ok(records, positions, i));
            assert(slot_ok(records, positions, p));
        }
    }

    /// A store without records.
    pub fn new() -> (store: TransactionsStore)
        ensures
            store.wf(),
            store.records().len() == 0,
    {
        TransactionsStore { records: Vec::new(), positions: KeyMap::new() }
    }

    /// The number of records.
    pub fn len(&self) -> (n: usize)
        ensures
            n == self.records().len(),
    {
        self.records.len()
    }

    /// The position of the record for the hash.
    fn find(&self, hash: &Felt) -> (position: Option<usize>)
        requires
            self.wf(),
        ensures
            match position {
                Some(p) => has_record(self.records(), *hash) && p == position_of(
                    self.records(),
                    *hash,
                ) && p < self.records().len(),
                None => !has_record(self.records(), *hash),
            },
    {
        let n = self.records.len();
        match self.positions.get(hash) {
            Some(p) => {
                proof {
                    let records = self.records@;
                    assert(records[*p as int].transaction.hash == *hash);
                    let q = position_of(records, *hash);
                    assert(slot_ok(records, self.positions@, q));
                }
                Some(*p)
            },
            None => {
                proof {
                    let records = self.records@;
                    if has_record(records, *hash) {
                        let q = position_of(records, *hash);
                        assert(slot_ok(records, self.positions@, q));
                    }
                }
                None
            },
        }
    }

    /// Whether a record is kept for the hash.
    pub fn contains(&self, hash: &Felt) -> (found: bool)
        requires
            self.wf(),
        ensures
            found == has_record(self.records(), *hash),
    {
        self.find(hash).is_some()
    }

    /// The record that is kept for the hash.
    pub fn get(&self, hash: &Felt) -> (found: Option<&TransactionRecord>)
        requires
            self.wf(),
        ensures
            match found {
                Some(r) => record_of(self.records(), *hash) == Some(*r),
                None => record_of(self.records(), *hash) is None,
            },
    {
        match self.find(hash) {
            Some(p) => Some(&self.records[p]),
            None => None,
        }
    }

    /// Adds the record of a newly submitted transaction, in status
    /// `Pending`. A transaction whose hash has a record already is handed
    /// back, and the store stays as it was.
    pub fn insert(&mut self, transaction: Transaction) -> (result: Result<(), Transaction>)
        requires
            old(self).wf(),
        ensures
            final(self).wf(),
            evolved(old(self).records(), final(self).records()),
            match result {
                Ok(()) => {
                    &&& !has_record(old(self).records(), transaction.hash)
                    &&& final(self).records() == old(self).records().push(
                        TransactionRecord::spec_pending(transaction),
                    )
                },
                Err(back) => {
                    &&& has_record(old(self).records(), transaction.hash)
                    &&& back == transaction
                    &&& final(self).records() == old(self).records()
                },
            },
    {
        if self.find(&transaction.hash).is_some() {
            proof {
                lemma_evolved_reflexive(self.records@);
            }
            return Err(transaction);
        }
        let ghost before = self.records@;
        let ghost index_before = self.positions@;
        let p = self.records.len();
        self.positions.insert(transaction.hash, p);
        self.records.push(
            TransactionRecord {
                transaction,
                status: TransactionStatus::Pending,
                block_number: None,
                block_hash: None,
                receipt: None,
                rejection: None,
            },
        );
        proof {
            let after = self.records@;
            let index = self.positions@;
            assert forall|i: int| 0 <= i < after.len() implies #[trigger] slot_ok(
                after,
                index,
                i,
            ) by {
                if i < before.len() {
                    assert(slot_ok(before, index_before, i));
                    assert(after[i] == before[i]);
                }
            }
            assert forall|h: Felt| #[trigger] index.contains_key(h) implies index[h] < after.len()
                && after[index[h] as int].transaction.hash == h by {
                if h != transaction.hash {
                    assert(index_before.contains_key(h));
                    assert(after[index_before[h] as int] == before[index_before[h] as int]);
                }
            }
            assert forall|i: int| 0 <= i < before.len() implies #[trigger] record_step(
                before[i],
                after[i],
            ) by {
                assert(after[i] == before[i]);
            }
        }
        Ok(())
    }

    /// Changes the record that is kept for the hash by one transition.
    /// Where no record is kept for the hash, or the transition does not
    /// start from the status of the record, the store stays as it was.
    pub fn transition(&mut self, hash: &Felt, change: Transition) -> (result: Result<
        (),
        TransitionError,
    >)
        requires
            old(self).wf(),
        ensures
            final(self).wf(),
            evolved(old(self).records(), final(self).records()),
            match result {
                Ok(()) => {
                    &&& has_record(old(self).records(), *hash)
                    &&& change.starts_from(record_of(old(self).records(), *hash).unwrap())
                    &&& final(self).records() == old(self).records().update(
                        position_of(old(self).records(), *hash),
                        change.applied_to(record_of(old(self).records(), *hash).unwrap()),
                    )
                },
                Err(TransitionError::UnknownTransaction) => {
                    &&& !has_record(old(self).records(), *hash)
                    &&& final(self).records() == old(self).records()
                },
                Err(TransitionError::WrongStatus) => {
                    &&& has_record(old(self).records(), *hash)
                    &&& !change.starts_from(record_of(old(self).records(), *hash).unwrap())
                    &&& final(self).records() == old(self).records()
                },
            },
    {
        let ghost before = self.records@;
        proof {
            lemma_evolved_reflexive(before);
        }
        let p = match self.find(hash) {
            Some(p) => p,
            None => {
                return Err(TransitionError::UnknownTransaction);
            },
        };
        assert(slot_ok(before, self.positions@, p as int));
        let pending = match self.records[p].status {
            TransactionStatus::Pending => true,
            _ => false,
        };
        let awaits = match self.records[p].status {
            TransactionStatus::AcceptedOnL2 => self.records[p].block_number.is_none(),
            _ => false,
        };
        match change {
            Transition::Accept(receipt) => {
                if !pending {
                    return Err(TransitionError::WrongStatus);
                }
                self.records[p].status = TransactionStatus::AcceptedOnL2;
                self.records[p].receipt = Some(receipt);
            },
            Transition::Reject(rejection) => {
                if !pending {
                    return Err(TransitionError::WrongStatus);
                }
                self.records[p].status = TransactionStatus::Rejected;
                match rejection {
                    Rejection::InvalidNonce => {
                        self.records[p].rejection = Some(RejectReason::InvalidNonce);
                    },
                    Rejection::InsufficientFee => {
                        self.records[p].rejection = Some(RejectReason::InsufficientFee);
                    },
                    Rejection::Reverted(receipt) => {
                        self.records[p].rejection = Some(RejectReason::Reverted);
                        self.records[p].receipt = Some(receipt);
                    },
                }
            },
            Transition::Seal(number, block_hash) => {
                if !awaits {
                    return Err(TransitionError::WrongStatus);
                }
                self.records[p].block_number = Some(number);
                self.records[p].block_hash = Some(block_hash);
            },
        }
        proof {
            let after = self.records@;
            let index = self.positions@;
            assert(after =~= before.update(p as int, change.applied_to(before[p as int])));
            assert forall|i: int| 0 <= i < after.len() implies #[trigger] slot_ok(
                after,
                index,
                i,
            ) by {
                assert(slot_ok(before, index, i));
            }
            assert forall|h: Felt| #[trigger] index.contains_key(h) implies index[h] < after.len()
                && after[index[h] as int].transaction.hash == h by {
                assert(before[index[h] as int].transaction.hash == h);
            }
            assert forall|i: int| 0 <= i < before.len() implies #[trigger] record_step(
                before[i],
                after[i],
            ) by {
                assert(slot_ok(before, index, i));
            }
        }
        Ok(())
    }
}

/// Records that did not change have evolved from themselves.
pub proof fn lemma_evolved_reflexive(records: Seq<TransactionRecord>)
    ensures
        evolved(records, records),
{
    assert forall|i: int| 0 <= i < records.len() implies #[trigger] record_step(
        records[i],
        records[i],
    ) by {}
}

/// What has evolved from records that have evolved from others has evolved
/// from those others: over any number of steps a status never goes back.
pub proof fn lemma_evolved_transitive(
    first: Seq<TransactionRecord>,
    second: Seq<TransactionRecord>,
    third: Seq<TransactionRecord>,
)
    requires
        evolved(first, second),
        evolved(second, third),
    ensures
        evolved(first, third),
{
    assert forall|i: int| 0 <= i < first.len() implies #[trigger] record_step(
        first[i],
        third[i],
    ) by {
        assert(record_step(first[i], second[i]));
        assert(record_step(second[i], third[i]));
    }
}

} // verus!
