//! Sealed blocks and the store that indexes them by number and by hash.

use crate::felt::Felt;
use crate::keymap::KeyMap;
use crate::state::StateDiff;
use std::ops::RangeInclusive;
use vstd::prelude::*;
use vstd::std_specs::range::RangeInclusiveView;

verus! {

/// `RangeInclusive::start` of std. Trusted, not proved: it hands out the
/// lower bound of the range.
pub assume_specification<Idx>[ RangeInclusive::<Idx>::start ](
    range: &RangeInclusive<Idx>,
) -> (start: &Idx)
    ensures
        *start == range@.start,
;

/// `RangeInclusive::end` of std. Trusted, not proved: it hands out the
/// upper bound of the range.
pub assume_specification<Idx>[ RangeInclusive::<Idx>::end ](range: &RangeInclusive<Idx>) -> (end:
    &Idx)
    ensures
        *end == range@.end,
;

/// How a block is asked for: by its hash or by its number.
#[derive(Clone, Copy, Debug)]
pub enum BlockId {
    Hash(Felt),
    Number(u64),
}

/// A sealed block. The store hands blocks out by shared reference only, so a
/// block never changes once it is sealed.
#[derive(Debug)]
pub struct Block {
    pub number: u64,
    pub hash: Felt,
    pub parent_hash: Felt,
    pub timestamp: u64,
    /// The hashes of the transactions of the block, in the order in which
    /// they were accepted.
    pub transactions: Vec<Felt>,
    /// What the block committed to the state.
    pub state_diff: StateDiff,
}

/// The transactions that were executed and not sealed yet, with what they
/// changed.
#[derive(Debug)]
pub struct PendingBlock {
    pub transactions: Vec<Felt>,
    pub state_diff: StateDiff,
}

/// A pending block as mathematical sequences.
pub struct PendingView {
    pub transactions: Seq<Felt>,
    pub state_diff: crate::state::DiffView,
}

impl View for Block {
    type V = PendingView;

    /// What the block holds of the pending block that it was sealed from.
    open spec fn view(&self) -> PendingView {
        PendingView { transactions: self.transactions@, state_diff: self.state_diff@ }
    }
}

impl View for PendingBlock {
    type V = PendingView;

    open spec fn view(&self) -> PendingView {
        PendingView { transactions: self.transactions@, state_diff: self.state_diff@ }
    }
}

/// Why the store did not take a block.
#[derive(Clone, Copy, Debug, PartialEq, Eq, Structural)]
pub enum InsertError {
    /// The number of the block is not the number of blocks in the store.
    NumberMismatch,
    /// The parent hash is not the hash of the latest block (zero for the first).
    ParentMismatch,
    /// The timestamp is earlier than that of the latest block.
    TimestampRegression,
    /// A sealed block has the same hash already.
    DuplicateHash,
}

/// A block that the store did not take, handed back with the reason.
#[derive(Debug)]
pub struct Refused {
    pub reason: InsertError,
    pub block: Block,
}

/// The parent hash that the next block must carry: the hash of the latest
/// block, or zero where there is none.
pub open spec fn next_parent(blocks: Seq<Block>) -> Felt {
    if blocks.len() == 0 {
        Felt::spec_zero()
    } else {
        blocks.last().hash
    }
}

/// The earliest timestamp that the next block may carry.
pub open spec fn earliest_next(blocks: Seq<Block>) -> u64 {
    if blocks.len() == 0 {
        0
    } else {
        blocks.last().timestamp
    }
}

/// Whether a block has the given hash.
pub open spec fn has_hash(blocks: Seq<Block>, hash: Felt) -> bool {
    exists|i: int| 0 <= i < blocks.len() && (#[trigger] blocks[i]).hash == hash
}

/// What holds of the block at position `i`: its number is its position, the
/// index leads from its hash to its number, it names the block before it as
/// its parent (the first names zero), and it is not older than that block.
pub open spec fn entry_ok(blocks: Seq<Block>, index: Map<Felt, u64>, i: int) -> bool {
    &&& blocks[i].number == i
    &&& index.contains_key(blocks[i].hash)
    &&& index[blocks[i].hash] == i
    &&& blocks[i].parent_hash == (if i == 0 {
        Felt::spec_zero()
    } else {
        blocks[i - 1].hash
    })
    &&& i > 0 ==> blocks[i - 1].timestamp <= blocks[i].timestamp
}

/// What holds of the sealed blocks and of the index from hash to number:
/// the numbers are 0, 1, 2, … without a gap, the two indices agree on every
/// entry, each block names its predecessor, and time does not run backward.
pub open spec fn chain_ok(blocks: Seq<Block>, index: Map<Felt, u64>) -> bool {
    &&& forall|i: int| 0 <= i < blocks.len() ==> #[trigger] entry_ok(blocks, index, i)
    &&& forall|h: Felt| #[trigger]
        index.contains_key(h) ==> index[h] < blocks.len() && blocks[index[h] as int].hash == h
}

/// What holds of the sealed blocks by themselves: the numbers are 0, 1, 2, …
/// without a gap, no two blocks share a hash, each block names the block
/// before it as its parent, and time does not run backward.
pub open spec fn chain_linked(blocks: Seq<Block>) -> bool {
    &&& forall|i: int| 0 <= i < blocks.len() ==> (#[trigger] blocks[i]).number == i
    &&& forall|i: int, j: int|
        0 <= i < j < blocks.len() ==> (#[trigger] blocks[i]).hash != (#[trigger] blocks[j]).hash
    &&& forall|i: int|
        0 <= i < blocks.len() ==> (#[trigger] blocks[i]).parent_hash == next_parent(
            blocks.take(i),
        )
    &&& forall|i: int, j: int|
        0 <= i <= j < blocks.len() ==> (#[trigger] blocks[i]).timestamp <= (
        #[trigger] blocks[j]).timestamp
}

/// Blocks that are older the earlier they stand, pair by pair, are so over
/// any distance.
proof fn lemma_timestamps_ordered(blocks: Seq<Block>, index: Map<Felt, u64>, i: int, j: int)
    requires
        chain_ok(blocks, index),
        0 <= i <= j < blocks.len(),
    ensures
        blocks[i].timestamp <= blocks[j].timestamp,
    decreases j - i,
{
    if i < j {
        lemma_timestamps_ordered(blocks, index, i, j - 1);
        assert(entry_ok(blocks, index, j));
    }
}

/// The reason for which a block cannot follow the given blocks, if there is
/// one. The conditions are tried in this order.
pub open spec fn insert_error(blocks: Seq<Block>, block: Block) -> Option<InsertError> {
    if block.number != blocks.len() {
        Some(InsertError::NumberMismatch)
    } else if block.parent_hash != next_parent(blocks) {
        Some(InsertError::ParentMismatch)
    } else if block.timestamp < earliest_next(blocks) {
        Some(InsertError::TimestampRegression)
    } else if has_hash(blocks, block.hash) {
        Some(InsertError::DuplicateHash)
    } else {
        None
    }
}

/// The block that an id stands for among the given blocks.
pub open spec fn block_of(blocks: Seq<Block>, id: BlockId) -> Option<Block> {
    match id {
        BlockId::Number(n) => if n < blocks.len() {
            Some(blocks[n as int])
        } else {
            None
        },
        BlockId::Hash(h) => if has_hash(blocks, h) {
            Some(blocks[choose|i: int| 0 <= i < blocks.len() && (#[trigger] blocks[i]).hash == h])
        } else {
            None
        },
    }
}

/// Whether the range holds the number: the number is not below the lower
/// bound and not above the upper bound (below it, in a range that was
/// iterated to its end).
pub open spec fn in_range(range: RangeInclusiveView<u64>, number: u64) -> bool {
    range.start <= number && (if range.exhausted {
        number < range.end
    } else {
        number <= range.end
    })
}

/// The first number above the numbers that the range holds.
pub open spec fn range_stop(range: RangeInclusiveView<u64>) -> int {
    if range.exhausted {
        range.end as int
    } else {
        range.end + 1
    }
}

/// The blocks whose numbers the range holds, in the order of their numbers.
pub open spec fn blocks_between(blocks: Seq<Block>, range: RangeInclusiveView<u64>) -> Seq<Block> {
    let stop = if range_stop(range) < blocks.len() {
        range_stop(range)
    } else {
        blocks.len() as int
    };
    if range.start >= stop {
        Seq::empty()
    } else {
        blocks.subrange(range.start as int, stop)
    }
}

/// Among blocks that are numbered by their positions, the blocks between
/// the bounds of a range are exactly the blocks whose numbers it holds.
pub proof fn lemma_blocks_between(blocks: Seq<Block>, range: RangeInclusiveView<u64>, n: u64)
    requires
        forall|i: int| 0 <= i < blocks.len() ==> (#[trigger] blocks[i]).number == i,
        n < blocks.len(),
    ensures
        in_range(range, n) <==> (range.start <= n < range.start + blocks_between(
            blocks,
            range,
        ).len() && blocks_between(blocks, range)[n - range.start] == blocks[n as int]),
        forall|i: int|
            0 <= i < blocks_between(blocks, range).len() ==> in_range(
                range,
                (#[trigger] blocks_between(blocks, range)[i]).number,
            ),
{
    let found = blocks_between(blocks, range);
    assert forall|i: int| 0 <= i < found.len() implies in_range(
        range,
        (#[trigger] found[i]).number,
    ) by {
        assert(found[i] == blocks[range.start + i]);
    }
}

/// Whether a reference is to the block, or to nothing where there is none.
pub open spec fn refers_to(found: Option<&Block>, block: Option<Block>) -> bool {
    match found {
        Some(b) => block == Some(*b),
        None => block is None,
    }
}

/// The sealed blocks, indexed by number and by hash.
pub struct BlockStore {
    blocks: Vec<Block>,
    numbers: KeyMap<Felt, u64>,
}

impl BlockStore {
    /// The sealed blocks in the order of their numbers.
    pub closed spec fn sealed(&self) -> Seq<Block> {
        self.blocks@
    }

    /// The index from block hash to block number.
    pub closed spec fn index(&self) -> Map<Felt, u64> {
        self.numbers@
    }

    /// The invariant of the store.
    pub closed spec fn wf(&self) -> bool {
        &&& self.numbers.wf()
        &&& chain_ok(self.blocks@, self.numbers@)
    }

    /// In a store that meets its invariant the numbers have no gap and the
    /// two indices agree on every entry; so no two blocks share a hash.
    pub proof fn lemma_indices_agree(&self)
        requires
            self.wf(),
        ensures
            chain_ok(self.sealed(), self.index()),
            forall|i: int|
                0 <= i < self.sealed().len() ==> (#[trigger] self.sealed()[i]).number == i
                    && self.index().contains_key(self.sealed()[i].hash)
                    && self.index()[self.sealed()[i].hash] == i,
            forall|h: Felt| self.index().contains_key(h) <==> has_hash(self.sealed(), h),
            forall|i: int, j: int|
                0 <= i < j < self.sealed().len() ==> (#[trigger] self.sealed()[i]).hash != (
                #[trigger] self.sealed()[j]).hash,
    {
        let blocks = self.sealed();
        let index = self.index();
        assert forall|i: int| 0 <= i < blocks.len() implies (#[trigger] blocks[i]).number == i
            && index.contains_key(blocks[i].hash) && index[blocks[i].hash] == i by {
            assert(entry_ok(blocks, index, i));
        }
        assert forall|h: Felt| index.contains_key(h) <==> has_hash(blocks, h) by {
            if index.contains_key(h) {
                assert(blocks[index[h] as int].hash == h);
            }
            if has_hash(blocks, h) {
                let i = choose|i: int| 0 <= i < blocks.len() && (#[trigger] blocks[i]).hash == h;
                assert(entry_ok(blocks, index, i));
            }
        }
        assert forall|i: int, j: int| 0 <= i < j < blocks.len() implies (#[trigger] blocks[i]).hash
            != (#[trigger] blocks[j]).hash by {
            assert(entry_ok(blocks, index, i));
            assert(entry_ok(blocks, index, j));
        }
    }

    /// In a store that meets its invariant the blocks form one chain.
    pub proof fn lemma_chain_linked(&self)
        requires
            self.wf(),
        ensures
            chain_linked(self.sealed()),
    {
        let blocks = self.sealed();
        let index = self.index();
        self.lemma_indices_agree();
        assert forall|i: int| 0 <= i < blocks.len() implies (#[trigger] blocks[i]).parent_hash
            == next_parent(blocks.take(i)) by {
            assert(entry_ok(blocks, index, i));
            if i > 0 {
                assert(blocks.take(i).last() == blocks[i - 1]);
            }
        }
        assert forall|i: int, j: int| 0 <= i <= j < blocks.len() implies (
        #[trigger] blocks[i]).timestamp <= (#[trigger] blocks[j]).timestamp by {
            lemma_timestamps_ordered(blocks, index, i, j);
        }
    }

    /// A store without blocks.
    pub fn new() -> (store: BlockStore)
        ensures
            store.wf(),
            store.sealed() == Seq::<Block>::empty(),
            store.index() == Map::<Felt, u64>::empty(),
    {
        let store = BlockStore { blocks: Vec::new(), numbers: KeyMap::new() };
        assert(store.blocks@ =~= Seq::<Block>::empty());
        store
    }

    /// The number of sealed blocks.
    pub fn len(&self) -> (n: usize)
        ensures
            n == self.sealed().len(),
    {
        self.blocks.len()
    }

    /// The block with the given number.
    pub fn by_number(&self, number: u64) -> (found: Option<&Block>)
        requires
            self.wf(),
        ensures
            refers_to(found, block_of(self.sealed(), BlockId::Number(number))),
    {
        if number < self.blocks.len() as u64 {
            Some(&self.blocks[number as usize])
        } else {
            None
        }
    }

    /// The number of the block with the given hash.
    pub fn number_of(&self, hash: &Felt) -> (number: Option<u64>)
        requires
            self.wf(),
        ensures
            match number {
                Some(n) => n < self.sealed().len() && self.sealed()[n as int].hash == *hash,
                None => !has_hash(self.sealed(), *hash),
            },
    {
        proof {
            self.lemma_indices_agree();
        }
        match self.numbers.get(hash) {
            Some(n) => Some(*n),
            None => None,
        }
    }

    /// The block with the given hash.
    pub fn by_hash(&self, hash: &Felt) -> (found: Option<&Block>)
        requires
            self.wf(),
        ensures
            refers_to(found, block_of(self.sealed(), BlockId::Hash(*hash))),
    {
        let len = self.blocks.len();
        match self.numbers.get(hash) {
            Some(n) => {
                proof {
                    let blocks = self.sealed();
                    assert(*n < len);
                    assert(blocks[*n as int].hash == *hash);
                    let i = choose|i: int|
                        0 <= i < blocks.len() && (#[trigger] blocks[i]).hash == *hash;
                    assert(entry_ok(blocks, self.index(), i));
                }
                Some(&self.blocks[*n as usize])
            },
            None => {
                proof {
                    self.lemma_indices_agree();
                }
                None
            },
        }
    }

    /// The block that the id stands for.
    pub fn block(&self, id: BlockId) -> (found: Option<&Block>)
        requires
            self.wf(),
        ensures
            refers_to(found, block_of(self.sealed(), id)),
    {
        match id {
            BlockId::Hash(hash) => self.by_hash(&hash),
            BlockId::Number(number) => self.by_number(number),
        }
    }

    /// The block that was sealed last.
    pub fn latest(&self) -> (found: Option<&Block>)
        ensures
            match found {
                Some(b) => self.sealed().len() > 0 && *b == self.sealed().last(),
                None => self.sealed().len() == 0,
            },
    {
        let n = self.blocks.len();
        if n == 0 {
            None
        } else {
            Some(&self.blocks[n - 1])
        }
    }

    /// The sealed blocks whose numbers the range holds, in the order of
    /// their numbers. Where it holds the number of no sealed block, the
    /// result is empty.
    pub fn blocks_in_range(&self, range: RangeInclusive<u64>) -> (found: Vec<&Block>)
        ensures
            found@.len() == blocks_between(self.sealed(), range@).len(),
            forall|i: int|
                0 <= i < found@.len() ==> *(#[trigger] found@[i]) == blocks_between(
                    self.sealed(),
                    range@,
                )[i],
    {
        let mut found: Vec<&Block> = Vec::new();
        let n = self.blocks.len();
        let start: u64 = *range.start();
        let end: u64 = *range.end();
        if start > end || start >= n as u64 {
            return found;
        }
        // A range that was iterated to its end holds its upper bound no longer.
        let whole = range.contains(&end);
        let stop: usize = if !whole {
            if end >= n as u64 {
                n
            } else {
                end as usize
            }
        } else if end >= n as u64 {
            n
        } else {
            (end + 1) as usize
        };
        let mut i: usize = start as usize;
        while i < stop
            invariant
                start <= i <= stop <= n,
                n == self.blocks@.len(),
                found@.len() == i - start,
                forall|j: int|
                    0 <= j < found@.len() ==> *(#[trigger] found@[j]) == self.blocks@[start + j],
            decreases stop - i,
        {
            found.push(&self.blocks[i]);
            i = i + 1;
        }
        found
    }

    /// Takes a block into the store as the next block. The store keeps it
    /// under its number and under its hash at once. A block that cannot
    /// follow the sealed blocks is handed back, and the store stays as it was.
    pub fn insert(&mut self, block: Block) -> (result: Result<u64, Refused>)
        requires
            old(self).wf(),
        ensures
            final(self).wf(),
            match result {
                Ok(number) => {
                    &&& insert_error(old(self).sealed(), block) is None
                    &&& number == block.number
                    &&& final(self).sealed() == old(self).sealed().push(block)
                    &&& final(self).index() == old(self).index().insert(block.hash, number)
                },
                Err(refused) => {
                    &&& insert_error(old(self).sealed(), block) == Some(refused.reason)
                    &&& refused.block == block
                    &&& final(self).sealed() == old(self).sealed()
                    &&& final(self).index() == old(self).index()
                },
            },
    {
        let n = self.blocks.len();
        if block.number != n as u64 {
            return Err(Refused { reason: InsertError::NumberMismatch, block });
        }
        let (parent, earliest) = if n == 0 {
            (Felt::zero(), 0u64)
        } else {
            (self.blocks[n - 1].hash, self.blocks[n - 1].timestamp)
        };
        if !block.parent_hash.equals(&parent) {
            return Err(Refused { reason: InsertError::ParentMismatch, block });
        }
        if block.timestamp < earliest {
            return Err(Refused { reason: InsertError::TimestampRegression, block });
        }
        proof {
            self.lemma_indices_agree();
        }
        if self.numbers.contains_key(&block.hash) {
            return Err(Refused { reason: InsertError::DuplicateHash, block });
        }
        let ghost before = self.blocks@;
        let ghost index_before = self.numbers@;
        self.numbers.insert(block.hash, block.number);
        self.blocks.push(block);
        proof {
            let after = self.blocks@;
            let index = self.numbers@;
            assert forall|i: int| 0 <= i < after.len() implies #[trigger] entry_ok(
                after,
                index,
                i,
            ) by {
                if i < before.len() {
                    assert(entry_ok(before, index_before, i));
                    assert(after[i] == before[i]);
                    assert(has_hash(before, before[i].hash));
                    if i > 0 {
                        assert(after[i - 1] == before[i - 1]);
                    }
                } else {
                    if i > 0 {
                        assert(after[i - 1] == before[i - 1]);
                    }
                }
            }
            assert forall|h: Felt| #[trigger] index.contains_key(h) implies index[h] < after.len()
                && after[index[h] as int].hash == h by {
                if h != block.hash {
                    assert(index_before.contains_key(h));
                    assert(after[index_before[h] as int] == before[index_before[h] as int]);
                }
            }
        }
        Ok(n as u64)
    }
}

impl PendingBlock {
    /// A pending block without transactions.
    pub fn new() -> (pending: PendingBlock)
        ensures
            pending@ == (PendingView {
                transactions: Seq::empty(),
                state_diff: crate::state::DiffView::empty(),
            }),
    {
        let pending = PendingBlock { transactions: Vec::new(), state_diff: StateDiff::new() };
        assert(pending.transactions@ =~= Seq::empty());
        pending
    }
}

} // verus!
