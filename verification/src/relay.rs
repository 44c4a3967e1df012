//! The relay that fans market data out to every connection: it gathers messages
//! into batches, sending a batch when it is full, at once when batching saves
//! nothing, and otherwise shortly after its first message.
use vstd::prelude::*;

use crate::messages::OutgoingMessage;

verus! {

/// Most messages gathered before a batch is sent at once.
pub const BATCH_MAX_SIZE: usize = 128;

/// Longest wait before a partial batch is sent, in milliseconds.
pub const BATCH_TIMEOUT_MS: u64 = 1;

/// What the relay asks to be done after taking in a message.
#[derive(Debug, PartialEq, Eq)]
pub enum RelayAction {
    /// Send this batch to every connection now.
    Send(Vec<OutgoingMessage>),
    /// Call `flush` after `BATCH_TIMEOUT_MS`.
    ScheduleFlush,
    /// Nothing to do: a flush is already scheduled.
    Wait,
}

/// `s` without any occurrence of `x`, in order.
pub open spec fn without(s: Seq<u64>, x: u64) -> Seq<u64>
    decreases s.len(),
{
    if s.len() == 0 {
        Seq::empty()
    } else {
        let init = without(s.drop_last(), x);
        if s.last() == x {
            init
        } else {
            init.push(s.last())
        }
    }
}

/// The relay's state: the connections it serves, the messages waiting to be sent,
/// and whether a timed flush is pending.
pub struct Server {
    pub connected_actors: Vec<u64>,
    pub pending_batch: Vec<OutgoingMessage>,
    pub flush_scheduled: bool,
}

impl Server {
    /// A relay with no connections and nothing waiting.
    pub fn new() -> (r: Server)
        ensures
            r.connected_actors@ == Seq::<u64>::empty(),
            r.pending_batch@ == Seq::<OutgoingMessage>::empty(),
            !r.flush_scheduled,
    {
        Server { connected_actors: Vec::new(), pending_batch: Vec::new(), flush_scheduled: false }
    }

    /// Hands out the waiting messages, oldest first, and clears them and the pending
    /// flush.
    pub fn flush(&mut self) -> (r: Vec<OutgoingMessage>)
        ensures
            r@ == old(self).pending_batch@,
            final(self).pending_batch@ == Seq::<OutgoingMessage>::empty(),
            !final(self).flush_scheduled,
            final(self).connected_actors@ == old(self).connected_actors@,
    {
        self.flush_scheduled = false;
        let mut batch: Vec<OutgoingMessage> = Vec::new();
        std::mem::swap(&mut batch, &mut self.pending_batch);
        batch
    }

    /// Takes in a market-data message: sends the batch when it is full or when at
    /// most one connection is served, else schedules a flush unless one is pending.
    pub fn handle(&mut self, msg: OutgoingMessage) -> (r: RelayAction)
        requires
            old(self).pending_batch@.len() < BATCH_MAX_SIZE,
        ensures
            final(self).connected_actors@ == old(self).connected_actors@,
            final(self).pending_batch@.len() < BATCH_MAX_SIZE,
            ({
                let batch = old(self).pending_batch@.push(msg);
                if batch.len() >= BATCH_MAX_SIZE || old(self).connected_actors@.len() <= 1 {
                    &&& r matches RelayAction::Send(b) && b@ == batch
                    &&& final(self).pending_batch@ == Seq::<OutgoingMessage>::empty()
                    &&& !final(self).flush_scheduled
                } else if !old(self).flush_scheduled {
                    &&& r == RelayAction::ScheduleFlush
                    &&& final(self).pending_batch@ == batch
                    &&& final(self).flush_scheduled
                } else {
                    &&& r == RelayAction::Wait
                    &&& final(self).pending_batch@ == batch
                    &&& final(self).flush_scheduled
                }
            }),
    {
        self.pending_batch.push(msg);
        if self.pending_batch.len() >= BATCH_MAX_SIZE {
            RelayAction::Send(self.flush())
        } else if self.connected_actors.len() <= 1 {
            RelayAction::Send(self.flush())
        } else if !self.flush_scheduled {
            self.flush_scheduled = true;
            RelayAction::ScheduleFlush
        } else {
            RelayAction::Wait
        }
    }

    /// Starts serving connection `id`.
    pub fn open(&mut self, id: u64)
        ensures
            final(self).connected_actors@ == old(self).connected_actors@.push(id),
            final(self).pending_batch@ == old(self).pending_batch@,
            final(self).flush_scheduled == old(self).flush_scheduled,
    {
        self.connected_actors.push(id);
    }

    /// Stops serving connection `id`.
    pub fn close(&mut self, id: u64)
        ensures
            final(self).connected_actors@ == without(old(self).connected_actors@, id),
            final(self).pending_batch@ == old(self).pending_batch@,
            final(self).flush_scheduled == old(self).flush_scheduled,
    {
        let ghost old_ids = self.connected_actors@;
        let mut kept: Vec<u64> = Vec::new();
        let mut i: usize = 0;
        assert(old_ids.take(0) =~= Seq::<u64>::empty());
        while i < self.connected_actors.len()
            invariant
                i <= old_ids.len(),
                old_ids == self.connected_actors@,
                kept@ == without(old_ids.take(i as int), id),
            decreases old_ids.len() - i,
        {
            let c = self.connected_actors[i];
            assert(old_ids.take(i + 1).drop_last() =~= old_ids.take(i as int));
            assert(old_ids.take(i + 1).last() == c);
            if c != id {
                kept.push(c);
            }
            i = i + 1;
        }
        assert(old_ids.take(i as int) =~= old_ids);
        self.connected_actors = kept;
    }
}

} // verus!
