use vstd::prelude::*;

use crate::atomic_register_client::ClientId;
use crate::node::{Message, NodeId};

verus! {

/// `m` is the reply a client waits for: an acknowledgement after a write,
/// the value after a read.
pub open spec fn is_reply(m: Message, ack: bool) -> bool {
    if ack {
        m is WriteAck
    } else {
        m is ClientReadResponse
    }
}

/// What is left of a client's queue once everything up to and including its
/// first awaited reply is taken out.
pub open spec fn after_first_reply(q: Seq<Message>, ack: bool) -> Seq<Message>
    decreases q.len(),
{
    if q.len() == 0 {
        q
    } else if is_reply(q[0], ack) {
        q.drop_first()
    } else {
        after_first_reply(q.drop_first(), ack)
    }
}

/// Simulated transport: one first-in first-out queue per replica and per
/// client, unbounded and lossless.
pub struct Network {
    pub node_inboxes: Vec<Vec<Message>>,
    pub client_inboxes: Vec<Vec<Message>>,
    pub coordinator_id: NodeId,
}

impl Network {
    pub open spec fn node_queue(&self, i: int) -> Seq<Message> {
        self.node_inboxes@[i]@
    }

    pub open spec fn client_queue(&self, i: int) -> Seq<Message> {
        self.client_inboxes@[i]@
    }

    /// Empty queues for `node_count` replicas and `client_count` clients;
    /// clients address replica zero.
    pub fn new(node_count: usize, client_count: usize) -> (r: Network)
        ensures
            r.node_inboxes@.len() == node_count,
            r.client_inboxes@.len() == client_count,
            forall|i: int| 0 <= i < node_count ==> r.node_queue(i).len() == 0,
            forall|i: int| 0 <= i < client_count ==> r.client_queue(i).len() == 0,
            r.coordinator_id == NodeId(0),
    {
        let mut node_inboxes: Vec<Vec<Message>> = Vec::new();
        let mut i: usize = 0;
        while i < node_count
            invariant
                i <= node_count,
                node_inboxes@.len() == i,
                forall|j: int| 0 <= j < i ==> node_inboxes@[j]@.len() == 0,
            decreases node_count - i,
        {
            node_inboxes.push(Vec::new());
            i = i + 1;
        }
        let mut client_inboxes: Vec<Vec<Message>> = Vec::new();
        let mut i: usize = 0;
        while i < client_count
            invariant
                i <= client_count,
                client_inboxes@.len() == i,
                forall|j: int| 0 <= j < i ==> client_inboxes@[j]@.len() == 0,
            decreases client_count - i,
        {
            client_inboxes.push(Vec::new());
            i = i + 1;
        }
        Network { node_inboxes, client_inboxes, coordinator_id: NodeId(0) }
    }

    /// Takes the next message for a client, if one is waiting.
    pub fn get(&mut self, client_id: &ClientId) -> (r: Option<Message>)
        requires
            client_id.0 < old(self).client_inboxes@.len(),
        ensures
            final(self).node_inboxes == old(self).node_inboxes,
            final(self).coordinator_id == old(self).coordinator_id,
            final(self).client_inboxes@.len() == old(self).client_inboxes@.len(),
            forall|i: int|
                0 <= i < old(self).client_inboxes@.len() && i != client_id.0 ==> final(self).client_queue(i) == old(self).client_queue(i),
            old(self).client_queue(client_id.0 as int).len() == 0 ==> r is None && final(self).client_queue(client_id.0 as int) == old(self).client_queue(client_id.0 as int),
            old(self).client_queue(client_id.0 as int).len() > 0 ==> r == Some(
                old(self).client_queue(client_id.0 as int)[0],
            ) && final(self).client_queue(client_id.0 as int) == old(self).client_queue(
                client_id.0 as int,
            ).drop_first(),
    {
        take_head(&mut self.client_inboxes, client_id.0)
    }

    /// Sends a message to the well-known coordinator replica.
    pub fn send(&mut self, message: Message)
        requires
            old(self).coordinator_id.0 < old(self).node_inboxes@.len(),
        ensures
            final(self).client_inboxes == old(self).client_inboxes,
            final(self).coordinator_id == old(self).coordinator_id,
            final(self).node_inboxes@ == old(self).node_inboxes@.update(
                old(self).coordinator_id.0 as int,
                final(self).node_inboxes@[old(self).coordinator_id.0 as int],
            ),
            final(self).node_queue(old(self).coordinator_id.0 as int) == old(self).node_queue(
                old(self).coordinator_id.0 as int,
            ).push(message),
    {
        let id = self.coordinator_id;
        self.send_to_node(&id, message);
    }

    /// Appends a message to one replica's queue.
    pub fn send_to_node(&mut self, node_id: &NodeId, message: Message)
        requires
            node_id.0 < old(self).node_inboxes@.len(),
        ensures
            final(self).client_inboxes == old(self).client_inboxes,
            final(self).coordinator_id == old(self).coordinator_id,
            final(self).node_inboxes@ == old(self).node_inboxes@.update(
                node_id.0 as int,
                final(self).node_inboxes@[node_id.0 as int],
            ),
            final(self).node_queue(node_id.0 as int) == old(self).node_queue(
                node_id.0 as int,
            ).push(message),
    {
        push_at(&mut self.node_inboxes, node_id.0, message);
    }

    /// Appends a copy of the message to the queue of every replica but one.
    pub fn send_to_nodes(&mut self, message: Message, node_id: &NodeId)
        ensures
            final(self).client_inboxes == old(self).client_inboxes,
            final(self).coordinator_id == old(self).coordinator_id,
            final(self).node_inboxes@.len() == old(self).node_inboxes@.len(),
            forall|i: int|
                0 <= i < old(self).node_inboxes@.len() ==> final(self).node_queue(i) == if i
                    == node_id.0 {
                    old(self).node_queue(i)
                } else {
                    old(self).node_queue(i).push(message)
                },
    {
        let ghost orig = *self;
        let mut i: usize = 0;
        while i < self.node_inboxes.len()
            invariant
                i <= self.node_inboxes@.len(),
                self.node_inboxes@.len() == orig.node_inboxes@.len(),
                self.client_inboxes == orig.client_inboxes,
                self.coordinator_id == orig.coordinator_id,
                forall|j: int|
                    0 <= j < self.node_inboxes@.len() ==> self.node_queue(j) == if j < i && j
                        != node_id.0 {
                        orig.node_queue(j).push(message)
                    } else {
                        orig.node_queue(j)
                    },
            decreases self.node_inboxes@.len() - i,
        {
            let ghost prev = self.node_inboxes@;
            let ghost prev_self = *self;
            if i != node_id.0 {
                push_at(&mut self.node_inboxes, i, message.duplicate());
            }
            proof {
                assert forall|j: int| 0 <= j < self.node_inboxes@.len() implies self.node_queue(j) == if j < i + 1 && j
                        != node_id.0 {
                        orig.node_queue(j).push(message)
                    } else {
                        orig.node_queue(j)
                    } by {
                    assert(prev_self.node_queue(j) == prev[j]@);
                    if j != i {
                        assert(self.node_queue(j) == prev[j]@);
                    }
                }
            }
            i = i + 1;
        }
    }

    /// Takes the next message for a replica, if one is waiting.
    pub fn get_node_msg(&mut self, node_id: &NodeId) -> (r: Option<Message>)
        requires
            node_id.0 < old(self).node_inboxes@.len(),
        ensures
            final(self).client_inboxes == old(self).client_inboxes,
            final(self).coordinator_id == old(self).coordinator_id,
            final(self).node_inboxes@.len() == old(self).node_inboxes@.len(),
            forall|i: int|
                0 <= i < old(self).node_inboxes@.len() && i != node_id.0 ==> final(self).node_queue(i) == old(self).node_queue(i),
            old(self).node_queue(node_id.0 as int).len() == 0 ==> r is None && final(self).node_queue(node_id.0 as int) == old(self).node_queue(node_id.0 as int),
            old(self).node_queue(node_id.0 as int).len() > 0 ==> r == Some(
                old(self).node_queue(node_id.0 as int)[0],
            ) && final(self).node_queue(node_id.0 as int) == old(self).node_queue(
                node_id.0 as int,
            ).drop_first(),
    {
        take_head(&mut self.node_inboxes, node_id.0)
    }

    /// Takes messages off a client's queue up to and including the first
    /// awaited reply, or all of them if none is there.
    pub fn take_through_reply(&mut self, client_id: &ClientId, ack: bool)
        requires
            client_id.0 < old(self).client_inboxes@.len(),
        ensures
            final(self).node_inboxes == old(self).node_inboxes,
            final(self).coordinator_id == old(self).coordinator_id,
            final(self).client_inboxes@.len() == old(self).client_inboxes@.len(),
            forall|i: int|
                0 <= i < old(self).client_inboxes@.len() && i != client_id.0 ==> #[trigger] final(self).client_queue(i) == old(self).client_queue(i),
            final(self).client_queue(client_id.0 as int) == after_first_reply(
                old(self).client_queue(client_id.0 as int),
                ack,
            ),
    {
        let ghost pre = *self;
        let ghost k = client_id.0 as int;
        let mut done = false;
        while !done
            invariant
                client_id.0 < self.client_inboxes@.len(),
                k == client_id.0,
                self.client_inboxes@.len() == pre.client_inboxes@.len(),
                self.node_inboxes == pre.node_inboxes,
                self.coordinator_id == pre.coordinator_id,
                forall|i: int|
                    0 <= i < pre.client_inboxes@.len() && i != k ==> #[trigger] self.client_queue(i) == pre.client_queue(i),
                done ==> self.client_queue(k) == after_first_reply(pre.client_queue(k), ack),
                !done ==> after_first_reply(self.client_queue(k), ack) == after_first_reply(
                    pre.client_queue(k),
                    ack,
                ),
            decreases self.client_queue(k).len() + if done {
                0int
            } else {
                1int
            },
        {
            let ghost before = *self;
            proof {
                let q = before.client_queue(k);
                if q.len() > 0 {
                    assert(after_first_reply(q, ack) == if is_reply(q[0], ack) {
                        q.drop_first()
                    } else {
                        after_first_reply(q.drop_first(), ack)
                    });
                }
            }
            let m = self.get(client_id);
            match m {
                None => {
                    done = true;
                },
                Some(m) => {
                    let reply = if ack {
                        match m {
                            Message::WriteAck(_) => true,
                            _ => false,
                        }
                    } else {
                        match m {
                            Message::ClientReadResponse(_) => true,
                            _ => false,
                        }
                    };
                    if reply {
                        done = true;
                    }
                },
            }
            proof {
                assert forall|i: int| 0 <= i < pre.client_inboxes@.len() && i != k implies #[trigger] self.client_queue(i) == pre.client_queue(i) by {
                    assert(before.client_queue(i) == pre.client_queue(i));
                }
            }
        }
    }

    /// Appends a message to one client's queue.
    pub fn send_to_client(&mut self, client_id: &ClientId, message: Message)
        requires
            client_id.0 < old(self).client_inboxes@.len(),
        ensures
            final(self).node_inboxes == old(self).node_inboxes,
            final(self).coordinator_id == old(self).coordinator_id,
            final(self).client_inboxes@ == old(self).client_inboxes@.update(
                client_id.0 as int,
                final(self).client_inboxes@[client_id.0 as int],
            ),
            final(self).client_queue(client_id.0 as int) == old(self).client_queue(
                client_id.0 as int,
            ).push(message),
    {
        push_at(&mut self.client_inboxes, client_id.0, message);
    }
}

fn push_at(queues: &mut Vec<Vec<Message>>, i: usize, message: Message)
    requires
        i < old(queues)@.len(),
    ensures
        final(queues)@ == old(queues)@.update(i as int, final(queues)@[i as int]),
        final(queues)@[i as int]@ == old(queues)@[i as int]@.push(message),
{
    let mut q = queues.remove(i);
    q.push(message);
    queues.insert(i, q);
    assert(queues@ =~= old(queues)@.update(i as int, queues@[i as int]));
}

fn take_head(queues: &mut Vec<Vec<Message>>, i: usize) -> (r: Option<Message>)
    requires
        i < old(queues)@.len(),
    ensures
        final(queues)@ == old(queues)@.update(i as int, final(queues)@[i as int]),
        old(queues)@[i as int]@.len() == 0 ==> r is None && final(queues)@[i as int]@ == old(queues)@[i as int]@,
        old(queues)@[i as int]@.len() > 0 ==> r == Some(old(queues)@[i as int]@[0])
            && final(queues)@[i as int]@ == old(queues)@[i as int]@.drop_first(),
{
    let mut q = queues.remove(i);
    let r = if q.len() == 0 {
        None
    } else {
        let m = q.remove(0);
        assert(q@ =~= old(queues)@[i as int]@.drop_first());
        Some(m)
    };
    queues.insert(i, q);
    assert(queues@ =~= old(queues)@.update(i as int, queues@[i as int]));
    r
}

} // verus!
