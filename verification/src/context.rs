//! The parameters of the chain that the pending block and the next block
//! share, and the timestamp that is queued for the next pending block.

use vstd::prelude::*;

verus! {

/// The parameters of the chain at its head.
#[derive(Clone, Copy, Debug)]
pub struct BlockContext {
    /// The number of the block that was sealed last; zero while there is none.
    pub block_number: u64,
    /// The timestamp of the pending block, and of the block sealed from it.
    pub timestamp: u64,
    pub gas_price: u128,
    /// The timestamp that the next pending block takes, where one is queued.
    pub next_timestamp: Option<u64>,
}

/// Why a timestamp was not queued.
#[derive(Clone, Copy, Debug, PartialEq, Eq, Structural)]
pub enum TimestampError {
    /// The timestamp is earlier than the current one: time cannot go back.
    Regression,
    /// The current timestamp and the increase together exceed what a
    /// timestamp can hold.
    Overflow,
}

impl TimestampError {
    /// What went wrong, in words.
    pub fn message(&self) -> (text: &'static str)
        ensures
            text@ == (match self {
                TimestampError::Regression => "the timestamp is earlier than the current one"@,
                TimestampError::Overflow => "the increased timestamp is out of range"@,
            }),
    {
        match self {
            TimestampError::Regression => "the timestamp is earlier than the current one",
            TimestampError::Overflow => "the increased timestamp is out of range",
        }
    }
}

impl BlockContext {
    /// The invariant of the context: a queued timestamp is not earlier than
    /// the current one.
    pub open spec fn wf(self) -> bool {
        self.next_timestamp matches Some(t) ==> self.timestamp <= t
    }

    /// This context with `timestamp` queued for the next pending block.
    pub open spec fn queued(self, timestamp: u64) -> BlockContext {
        BlockContext { next_timestamp: Some(timestamp), ..self }
    }

    /// This context after a pending block was opened: a queued timestamp
    /// has become the current one and is queued no longer.
    pub open spec fn opened(self) -> BlockContext {
        match self.next_timestamp {
            Some(t) => BlockContext { timestamp: t, next_timestamp: None, ..self },
            None => self,
        }
    }

    /// This context after the block with the given number was sealed.
    pub open spec fn sealed(self, number: u64) -> BlockContext {
        BlockContext { block_number: number, ..self }
    }

    /// The context of a chain without blocks.
    pub fn new(timestamp: u64, gas_price: u128) -> (context: BlockContext)
        ensures
            context == (BlockContext { block_number: 0, timestamp, gas_price, next_timestamp: None }),
            context.wf(),
    {
        BlockContext { block_number: 0, timestamp, gas_price, next_timestamp: None }
    }

    /// Queues `timestamp` for the next pending block. A timestamp earlier
    /// than the current one is refused and the context stays as it was.
    pub fn set_next_block_timestamp(&mut self, timestamp: u64) -> (result: Result<
        (),
        TimestampError,
    >)
        ensures
            match result {
                Ok(()) => old(self).timestamp <= timestamp && *final(self) == old(self).queued(
                    timestamp,
                ),
                Err(e) => e == TimestampError::Regression && timestamp < old(self).timestamp
                    && *final(self) == *old(self),
            },
            old(self).wf() ==> final(self).wf(),
    {
        if timestamp < self.timestamp {
            return Err(TimestampError::Regression);
        }
        self.next_timestamp = Some(timestamp);
        Ok(())
    }

    /// Queues the current timestamp plus `delta` for the next pending
    /// block. Where the sum is more than a timestamp can hold, nothing is
    /// queued and the context stays as it was.
    pub fn increase_next_block_timestamp(&mut self, delta: u64) -> (result: Result<
        (),
        TimestampError,
    >)
        ensures
            match result {
                Ok(()) => old(self).timestamp + delta <= u64::MAX && *final(self) == old(
                    self,
                ).queued((old(self).timestamp + delta) as u64),
                Err(e) => e == TimestampError::Overflow && old(self).timestamp + delta > u64::MAX
                    && *final(self) == *old(self),
            },
            old(self).wf() ==> final(self).wf(),
    {
        if delta > u64::MAX - self.timestamp {
            return Err(TimestampError::Overflow);
        }
        self.next_timestamp = Some(self.timestamp + delta);
        Ok(())
    }

    /// Opens the context for a new pending block: a queued timestamp
    /// becomes the current one and is queued no longer.
    pub fn open(&mut self)
        ensures
            *final(self) == old(self).opened(),
            old(self).wf() ==> final(self).wf(),
    {
        match self.next_timestamp {
            Some(t) => {
                self.timestamp = t;
                self.next_timestamp = None;
            },
            None => {},
        }
    }
}

/// A timestamp that was queued is, after the next pending block was opened,
/// exactly the current timestamp; and it is applied once: opening a second
/// pending block changes nothing more.
pub proof fn lemma_queued_timestamp_applies_once(context: BlockContext, timestamp: u64)
    ensures
        context.queued(timestamp).opened().timestamp == timestamp,
        context.queued(timestamp).opened().next_timestamp is None,
        context.queued(timestamp).opened().opened() == context.queued(timestamp).opened(),
        context.queued(timestamp).opened().block_number == context.block_number,
{
}

/// Without a queued timestamp, opening a pending block leaves the context
/// as it is.
pub proof fn lemma_open_without_queue(context: BlockContext)
    requires
        context.next_timestamp is None,
    ensures
        context.opened() == context,
{
}

/// While the invariant holds, opening a pending block never moves the
/// timestamp back.
pub proof fn lemma_time_moves_forward(context: BlockContext)
    requires
        context.wf(),
    ensures
        context.timestamp <= context.opened().timestamp,
        context.opened().wf(),
{
}

} // verus!
