//! Interprocess messages and the per-task queue that stores them until they
//! are read or expire.
use vstd::prelude::*;
use std::collections::VecDeque;
use crate::id::TaskID;

verus! {

/// Interprocess Messages are implemented by passing tuples of u32 values from
/// one task to another
#[derive(Copy, Clone, Debug, Eq, PartialEq, Structural)]
pub struct Message(pub u32, pub u32, pub u32, pub u32);

impl Message {
    pub fn empty() -> (r: Self)
        ensures
            r == Message(0, 0, 0, 0),
    {
        Message(0, 0, 0, 0)
    }
}

/// A Message Packet associates a message with its sender
#[derive(Copy, Clone, Debug, Eq, PartialEq, Structural)]
pub struct MessagePacket {
    pub from: TaskID,
    pub message: Message,
}

impl MessagePacket {
    pub fn open(self) -> (r: (TaskID, Message))
        ensures
            r == (self.from, self.message),
    {
        (self.from, self.message)
    }
}

/// Each queued message is associated with an expiration time, in system
/// ticks, after which the entry is no longer valid.
#[derive(Copy, Clone, Debug, Eq, PartialEq, Structural)]
pub struct EnqueuedMessage {
    pub packet: MessagePacket,
    pub expiration_ticks: u32,
}

/// The entries of a queue that are still valid at `current_ticks`: expired
/// entries are only dropped from the front of the queue, up to the first one
/// that is still valid.
pub open spec fn drop_expired(q: Seq<EnqueuedMessage>, current_ticks: u32) -> Seq<EnqueuedMessage>
    decreases q.len(),
{
    if q.len() > 0 && q[0].expiration_ticks <= current_ticks {
        drop_expired(q.drop_first(), current_ticks)
    } else {
        q
    }
}

pub proof fn lemma_drop_expired_suffix(q: Seq<EnqueuedMessage>, t: u32)
    ensures
        drop_expired(q, t).len() <= q.len(),
        drop_expired(q, t) == q.subrange(q.len() - drop_expired(q, t).len(), q.len() as int),
        drop_expired(q, t).len() > 0 ==> drop_expired(q, t)[0].expiration_ticks > t,
    decreases q.len(),
{
    if q.len() > 0 && q[0].expiration_ticks <= t {
        lemma_drop_expired_suffix(q.drop_first(), t);
        assert(q.drop_first().subrange(
            q.drop_first().len() - drop_expired(q, t).len(),
            q.drop_first().len() as int,
        ) =~= q.subrange(q.len() - drop_expired(q, t).len(), q.len() as int));
    } else {
        assert(q.subrange(0, q.len() as int) =~= q);
    }
}

/// Expiring is idempotent: a queue that was just cleaned has nothing left to
/// drop at the same time.
pub proof fn lemma_drop_expired_idempotent(q: Seq<EnqueuedMessage>, t: u32)
    ensures
        drop_expired(drop_expired(q, t), t) == drop_expired(q, t),
    decreases q.len(),
{
    if q.len() > 0 && q[0].expiration_ticks <= t {
        lemma_drop_expired_idempotent(q.drop_first(), t);
    }
}

/// Some entry of the queue is still valid at `current_ticks`
pub open spec fn has_live(q: Seq<EnqueuedMessage>, current_ticks: u32) -> bool {
    exists|j: int| 0 <= j < q.len() && (#[trigger] q[j]).expiration_ticks > current_ticks
}

/// Each task has a MessageQueue which stores messages that have been sent to
/// the task
pub struct MessageQueue {
    queue: VecDeque<EnqueuedMessage>,
}

impl View for MessageQueue {
    type V = Seq<EnqueuedMessage>;

    closed spec fn view(&self) -> Seq<EnqueuedMessage> {
        self.queue@
    }
}

impl MessageQueue {
    pub fn new() -> (r: Self)
        ensures
            r@ == Seq::<EnqueuedMessage>::empty(),
    {
        MessageQueue { queue: VecDeque::new() }
    }

    fn remove_expired_items(&mut self, current_ticks: u32)
        ensures
            final(self)@ == drop_expired(old(self)@, current_ticks),
    {
        loop
            invariant
                drop_expired(self@, current_ticks) == drop_expired(old(self)@, current_ticks),
            ensures
                self@ == drop_expired(old(self)@, current_ticks),
            decreases self@.len(),
        {
            if self.queue.len() == 0 {
                return;
            }
            if self.queue[0].expiration_ticks > current_ticks {
                return;
            }
            let ghost before = self@;
            let _ = self.queue.pop_front();
            assert(self@ =~= before.drop_first());
        }
    }

    /// Add an incoming message from another task
    pub fn add(&mut self, from: TaskID, message: Message, current_ticks: u32, expiration_ticks: u32)
        ensures
            final(self)@ == drop_expired(old(self)@, current_ticks).push(
                EnqueuedMessage { packet: MessagePacket { from, message }, expiration_ticks },
            ),
    {
        self.remove_expired_items(current_ticks);
        let for_queue = EnqueuedMessage {
            packet: MessagePacket { from, message },
            expiration_ticks,
        };
        self.queue.push_back(for_queue);
    }

    /// Attempt to read a packet from the message queue. The first element of
    /// the result holds the oldest packet that has not expired, if there is
    /// one. The second reflects whether there are more packets to read: some
    /// entry left in the queue has not expired.
    pub fn read(&mut self, current_ticks: u32) -> (r: (Option<MessagePacket>, bool))
        ensures
            ({
                let live = drop_expired(old(self)@, current_ticks);
                &&& live.len() == 0 ==> r.0 == None::<MessagePacket> && final(self)@ == live
                &&& live.len() > 0 ==> r.0 == Some(live[0].packet) && final(self)@
                    == live.drop_first()
                &&& r.1 == has_live(final(self)@, current_ticks)
            }),
    {
        self.remove_expired_items(current_ticks);
        let ghost live = self@;
        let entry = self.queue.pop_front();
        let message = match entry {
            Some(e) => Some(e.packet),
            None => None,
        };
        proof {
            if live.len() > 0 {
                assert(self@ =~= live.drop_first());
            }
        }
        let mut has_more = false;
        let mut i: usize = 0;
        while i < self.queue.len()
            invariant
                i <= self@.len(),
                has_more == exists|j: int| 0 <= j < i && (#[trigger] self@[j]).expiration_ticks > current_ticks,
            decreases self@.len() - i,
        {
            if self.queue[i].expiration_ticks > current_ticks {
                has_more = true;
            }
            i = i + 1;
        }
        (message, has_more)
    }

    /// Indicate whether there are any messages available for the task
    pub fn has_messages(&mut self, current_ticks: u32) -> (r: bool)
        ensures
            final(self)@ == drop_expired(old(self)@, current_ticks),
            r == (final(self)@.len() > 0),
    {
        self.remove_expired_items(current_ticks);
        self.queue.len() != 0
    }
}

/// Messages leave the queue in the order in which they were added: a message
/// added to a queue whose live entries all outlast `current_ticks` is read
/// back only after every one of them.
pub proof fn law_queue_is_fifo(q: Seq<EnqueuedMessage>, t: u32, e: EnqueuedMessage)
    requires
        drop_expired(q, t).len() > 0,
    ensures
        drop_expired(drop_expired(q, t).push(e), t)[0] == drop_expired(q, t)[0],
        drop_expired(drop_expired(q, t).push(e), t) == drop_expired(q, t).push(e),
{
    lemma_drop_expired_suffix(q, t);
}

/// A message that has not expired when it is added, added to an empty queue,
/// is the one the next read at the same time returns.
pub proof fn law_read_returns_added(t: u32, e: EnqueuedMessage)
    requires
        e.expiration_ticks > t,
    ensures
        drop_expired(Seq::<EnqueuedMessage>::empty().push(e), t)[0] == e,
        drop_expired(Seq::<EnqueuedMessage>::empty().push(e), t).len() == 1,
{
    assert(Seq::<EnqueuedMessage>::empty().push(e)[0] == e);
}

} // verus!
