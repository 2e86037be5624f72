//! The bounded FIFO queue between the extraction side and the file
//! worker. At runtime the two sides communicate over an asynchronous
//! channel outside the library; this model carries the contract the
//! pipeline relies on: a full queue refuses a command instead of
//! dropping it (the sender waits and retries — backpressure, not data
//! loss), commands travel one at a time, and what the worker has
//! received is always exactly the front of what was sent.

use vstd::prelude::*;
use crate::file_io::FileIOMessage;
use crate::file_io::FileIOMessageView;

verus! {

pub ghost struct CommandQueueView {
    pub sent: Seq<FileIOMessageView>,
    pub received: Seq<FileIOMessageView>,
    pub pending: Seq<FileIOMessageView>,
    pub capacity: nat,
}

/// Every command ever sent is either still pending, in order, or was
/// already received; the pending commands never exceed the bound.
pub open spec fn queue_wf(v: CommandQueueView) -> bool {
    &&& v.received + v.pending == v.sent
    &&& v.pending.len() <= v.capacity
}

/// A bounded FIFO of file commands, which remembers (in ghost state)
/// everything sent and everything received.
pub struct CommandQueue {
    items: Vec<FileIOMessage>,
    capacity: usize,
    sent: Ghost<Seq<FileIOMessageView>>,
    received: Ghost<Seq<FileIOMessageView>>,
}

impl View for CommandQueue {
    type V = CommandQueueView;

    closed spec fn view(&self) -> CommandQueueView {
        CommandQueueView {
            sent: self.sent@,
            received: self.received@,
            pending: self.items.deep_view(),
            capacity: self.capacity as nat,
        }
    }
}

impl CommandQueue {
    /// An empty queue holding at most `capacity` outstanding commands.
    pub fn new(capacity: usize) -> (q: Self)
        ensures
            queue_wf(q@),
            q@.sent == Seq::<FileIOMessageView>::empty(),
            q@.received == Seq::<FileIOMessageView>::empty(),
            q@.pending == Seq::<FileIOMessageView>::empty(),
            q@.capacity == capacity,
    {
        let q = CommandQueue {
            items: Vec::new(),
            capacity,
            sent: Ghost(Seq::empty()),
            received: Ghost(Seq::empty()),
        };
        proof {
            assert(q@.pending =~= Seq::<FileIOMessageView>::empty());
            assert(q@.received + q@.pending =~= q@.sent);
        }
        q
    }

    /// How many commands wait in the queue.
    pub fn len(&self) -> (n: usize)
        ensures
            n == self@.pending.len(),
    {
        self.items.len()
    }

    /// Offer one command. A queue below its bound takes it; a full
    /// queue refuses it unchanged, and the sender must wait — commands
    /// are never dropped.
    pub fn try_send(&mut self, msg: FileIOMessage) -> (ok: bool)
        requires
            queue_wf(old(self)@),
        ensures
            queue_wf(final(self)@),
            final(self)@.capacity == old(self)@.capacity,
            final(self)@.received == old(self)@.received,
            ok ==> old(self)@.pending.len() < old(self)@.capacity && final(self)@.sent == old(
                self,
            )@.sent.push(msg@) && final(self)@.pending == old(self)@.pending.push(msg@),
            !ok ==> old(self)@.pending.len() == old(self)@.capacity && final(self)@ == old(self)@,
    {
        if self.items.len() < self.capacity {
            let ghost mv = msg@;
            let ghost pre = self@;
            self.items.push(msg);
            proof {
                self.sent@ = self.sent@.push(mv);
            }
            proof {
                assert(self@.pending =~= pre.pending.push(mv));
                assert(self@.received + self@.pending =~= self@.sent);
            }
            true
        } else {
            false
        }
    }

    /// Take the oldest pending command, if any.
    pub fn recv(&mut self) -> (r: Option<FileIOMessage>)
        requires
            queue_wf(old(self)@),
        ensures
            queue_wf(final(self)@),
            final(self)@.capacity == old(self)@.capacity,
            final(self)@.sent == old(self)@.sent,
            r is Some <==> old(self)@.pending.len() > 0,
            r matches Some(m) ==> m@ == old(self)@.pending[0] && final(self)@.received == old(
                self,
            )@.received.push(m@) && final(self)@.pending == old(self)@.pending.drop_first(),
            r is None ==> final(self)@ == old(self)@,
    {
        if self.items.len() == 0 {
            proof {
                assert(self@.pending.len() == 0);
            }
            None
        } else {
            let ghost pre = self@;
            let m = self.items.remove(0);
            let ghost mv = m@;
            proof {
                self.received@ = self.received@.push(mv);
            }
            proof {
                assert(mv == pre.pending[0]);
                assert(self@.pending =~= pre.pending.drop_first());
                assert(self@.received + self@.pending =~= self@.sent);
            }
            Some(m)
        }
    }
}

/// Ordering under backpressure: in every reachable queue state, the
/// commands the worker has received are a prefix-consistent,
/// order-preserving image of the commands that were sent — the i-th
/// command received is exactly the i-th command sent, and nothing is
/// reordered, duplicated or lost.
pub proof fn lemma_queue_prefix(v: CommandQueueView)
    requires
        queue_wf(v),
    ensures
        v.received.len() <= v.sent.len(),
        v.received == v.sent.take(v.received.len() as int),
        forall|i: int| 0 <= i < v.received.len() ==> v.received[i] == v.sent[i],
{
    assert(v.received =~= v.sent.take(v.received.len() as int)) by {
        assert(forall|i: int|
            0 <= i < v.received.len() ==> v.received[i] == #[trigger] (v.received + v.pending)[i]);
    }
    assert forall|i: int| 0 <= i < v.received.len() implies v.received[i] == v.sent[i] by {
        assert(v.received[i] == (v.received + v.pending)[i]);
    }
}

} // verus!
