use vstd::prelude::*;

use rand::Rng;

use crate::atomic_register_client::ClientId;
use crate::quorum::{Quorum, QuorumState};

verus! {

/// Identity of a replica; replicas of a cluster are numbered from zero.
#[derive(Clone, Copy, Debug, Hash, PartialEq, Eq, Structural)]
pub struct NodeId(pub usize);

/// The register's value together with the version that orders it.
#[derive(Clone, Debug, PartialEq, Eq)]
pub struct NodeData {
    pub data: String,
    pub version: u32,
}

impl NodeData {
    pub fn new(data: String, version: u32) -> (r: NodeData)
        ensures
            r.data == data,
            r.version == version,
    {
        NodeData { data, version }
    }

    /// A copy with the same value and version.
    pub fn duplicate(&self) -> (r: NodeData)
        ensures
            r == *self,
    {
        NodeData { data: self.data.clone(), version: self.version }
    }
}

/// Everything exchanged between clients, coordinators and replicas.
#[derive(Clone, Debug, PartialEq, Eq)]
pub enum Message {
    ClientWriteRequest(ClientId, String),
    ClientReadRequest(ClientId),
    ClientReadResponse(NodeData),
    CoordinatorWriteRequest(NodeId, NodeData),
    CoordinatorReadRequest(NodeId),
    CoordinatorReadResponse(NodeData),
    WriteAck(NodeId),
}

impl Message {
    /// A copy of the message, field for field.
    pub fn duplicate(&self) -> (r: Message)
        ensures
            r == *self,
    {
        match self {
            Message::ClientWriteRequest(c, s) => Message::ClientWriteRequest(*c, s.clone()),
            Message::ClientReadRequest(c) => Message::ClientReadRequest(*c),
            Message::ClientReadResponse(d) => Message::ClientReadResponse(d.duplicate()),
            Message::CoordinatorWriteRequest(n, d) => Message::CoordinatorWriteRequest(
                *n,
                d.duplicate(),
            ),
            Message::CoordinatorReadRequest(n) => Message::CoordinatorReadRequest(*n),
            Message::CoordinatorReadResponse(d) => Message::CoordinatorReadResponse(d.duplicate()),
            Message::WriteAck(n) => Message::WriteAck(*n),
        }
    }
}

/// Health of a replica, driven from outside for fault injection.
#[derive(Clone, Copy, Debug, PartialEq, Eq, Structural)]
pub enum NodeState {
    Working,
    Restarting,
    Stalled,
}

/// What a draw in `0..=FAULT_DRAW_RANGE` does to a working replica: the
/// lowest draws stall it, the next ones restart it.
pub const FAULT_DRAW_RANGE: u32 = 100000000;
pub const STALL_DRAW_LIMIT: u32 = 5;
pub const RESTART_DRAW_LIMIT: u32 = 20;

/// One replica: its copy of the register, the tracker of the operation it
/// coordinates, and the inbox of messages accepted but not yet handled.
pub struct Node {
    pub id: NodeId,
    pub node_state: NodeState,
    pub data: NodeData,
    pub quorum: Quorum,
    pub messages: Vec<Message>,
}

/// The tracker accepts a coordinator response only in the phase that waits
/// for it; requests are always accepted, responses meant for clients never.
pub open spec fn accepted_by(q: Quorum, m: Message) -> bool {
    match m {
        Message::CoordinatorReadResponse(_) => q.quorum_state is WaitingForReadResponse,
        Message::WriteAck(_) => q.quorum_state is WaitingForWriteAck,
        Message::ClientReadResponse(_) => false,
        _ => true,
    }
}

/// The replica after a fault draw.
pub open spec fn fault_outcome(n: Node, draw: u32) -> Node {
    Node {
        node_state: if draw <= STALL_DRAW_LIMIT {
            NodeState::Stalled
        } else if draw <= RESTART_DRAW_LIMIT {
            NodeState::Restarting
        } else {
            n.node_state
        },
        ..n
    }
}

/// `s[k]` is the first entry holding the highest version of `s`.
pub open spec fn is_newest_at(s: Seq<NodeData>, k: int) -> bool {
    &&& 0 <= k < s.len()
    &&& forall|j: int| 0 <= j < s.len() ==> s[j].version <= s[k].version
    &&& forall|j: int| 0 <= j < k ==> s[j].version < s[k].version
}

/// Highest version among `s`.
pub open spec fn top_version(s: Seq<NodeData>, v: int) -> bool {
    &&& exists|k: int| 0 <= k < s.len() && s[k].version == v
    &&& forall|j: int| 0 <= j < s.len() ==> s[j].version <= v
}

/// Picks the first entry with the highest version, and says whether some
/// entry lags behind it.
pub fn newest_of(s: &Vec<NodeData>) -> (r: (NodeData, bool))
    requires
        s@.len() > 0,
    ensures
        exists|k: int| is_newest_at(s@, k) && r.0 == s@[k],
        r.1 == exists|j: int| 0 <= j < s@.len() && s@[j].version < r.0.version,
{
    let mut best: usize = 0;
    let mut lowest: u32 = s[0].version;
    let mut i: usize = 1;
    while i < s.len()
        invariant
            1 <= i <= s@.len(),
            is_newest_at(s@.take(i as int), best as int),
            exists|k: int| 0 <= k < i && s@[k].version == lowest,
            forall|j: int| 0 <= j < i ==> lowest <= s@[j].version,
        decreases s@.len() - i,
    {
        if s[i].version > s[best].version {
            best = i;
        }
        if s[i].version < lowest {
            lowest = s[i].version;
        }
        i = i + 1;
    }
    assert(s@.take(s@.len() as int) =~= s@);
    let stale = lowest < s[best].version;
    (s[best].duplicate(), stale)
}

/// The version after the highest of `s`, or `None` where that would not fit.
pub fn next_version(s: &Vec<NodeData>) -> (r: Option<u32>)
    requires
        s@.len() > 0,
    ensures
        forall|v: int| #[trigger] top_version(s@, v) ==> match r {
            Some(n) => n == v + 1,
            None => v == u32::MAX,
        },
{
    let (best, _) = newest_of(s);
    proof {
        assert forall|v: int| #[trigger] top_version(s@, v) implies v == best.version by {
            let k = choose|k: int| is_newest_at(s@, k) && best == s@[k];
            let k2 = choose|k2: int| 0 <= k2 < s@.len() && s@[k2].version == v;
            assert(s@[k2].version <= best.version);
        }
    }
    if best.version == u32::MAX {
        None
    } else {
        Some(best.version + 1)
    }
}

/// Relies on rand's `thread_rng().gen_range(0..=max)`: a value drawn from
/// the inclusive range, which is never empty here.
#[verifier::external_body]
fn draw_up_to(max: u32) -> (r: u32)
    ensures
        r <= max,
{
    rand::thread_rng().gen_range(0..=max)
}

impl Node {
    pub open spec fn responsive(&self) -> bool {
        self.node_state == NodeState::Working
    }

    /// A fresh replica: empty value at version zero, working, idle tracker,
    /// empty inbox.
    pub fn new(id: NodeId, quorum: usize) -> (r: Node)
        ensures
            r.id == id,
            r.node_state == NodeState::Working,
            r.data.data@ == Seq::<char>::empty(),
            r.data.version == 0,
            r.quorum.acks == quorum,
            r.quorum.idle(),
            r.messages@.len() == 0,
    {
        Node {
            id,
            node_state: NodeState::Working,
            data: NodeData { data: String::new(), version: 0 },
            quorum: Quorum::new(quorum),
            messages: Vec::new(),
        }
    }

    /// Sets the replica's health.
    pub fn set_state(&mut self, state: NodeState)
        ensures
            *final(self) == (Node { node_state: state, ..*old(self) }),
    {
        self.node_state = state;
    }

    /// What a fault draw does: a low draw stalls the replica, a slightly
    /// higher one restarts it, any other leaves it as it is.
    pub fn apply_fault_draw(&mut self, draw: u32)
        ensures
            *final(self) == fault_outcome(*old(self), draw),
    {
        if draw <= STALL_DRAW_LIMIT {
            self.node_state = NodeState::Stalled;
        } else if draw <= RESTART_DRAW_LIMIT {
            self.node_state = NodeState::Restarting;
        }
    }

    /// Draws a random fault and applies it.
    pub fn generate_random_state(&mut self)
        ensures
            exists|draw: u32|
                draw <= FAULT_DRAW_RANGE && *final(self) == #[trigger] fault_outcome(*old(self), draw),
    {
        let draw = draw_up_to(FAULT_DRAW_RANGE);
        self.apply_fault_draw(draw);
    }

    /// Listener filter: whether an inbound message goes into the inbox.
    pub fn accepts(&self, message: &Message) -> (r: bool)
        ensures
            r == accepted_by(self.quorum, *message),
    {
        match message {
            Message::CoordinatorReadResponse(_) => self.quorum.is_read_coordinator(),
            Message::WriteAck(_) => self.quorum.is_write_coordinator(),
            Message::ClientReadResponse(_) => false,
            _ => true,
        }
    }

    /// Listener: keeps the message in the inbox when it is accepted.
    pub fn listen(&mut self, message: Message)
        ensures
            final(self).id == old(self).id,
            final(self).node_state == old(self).node_state,
            final(self).data == old(self).data,
            final(self).quorum == old(self).quorum,
            final(self).messages@ == if accepted_by(old(self).quorum, message) {
                old(self).messages@.push(message)
            } else {
                old(self).messages@
            },
            !accepted_by(old(self).quorum, message) ==> *final(self) == *old(self),
    {
        if self.accepts(&message) {
            self.messages.push(message);
        }
    }

    /// Drops the head of the inbox, if any.
    pub fn remove_first_message(&mut self)
        ensures
            *final(self) == (Node {
                messages: final(self).messages,
                ..*old(self)
            }),
            final(self).messages@ == if old(self).messages@.len() == 0 {
                old(self).messages@
            } else {
                old(self).messages@.drop_first()
            },
    {
        if self.messages.len() == 0 {
            return;
        }
        self.messages.remove(0);
        assert(self.messages@ =~= old(self).messages@.drop_first());
    }

    /// A copy of the head of the inbox, if any.
    pub fn get_first_msg(&self) -> (r: Option<Message>)
        ensures
            self.messages@.len() == 0 ==> r is None,
            self.messages@.len() > 0 ==> r == Some(self.messages@[0]),
    {
        if self.messages.len() == 0 {
            None
        } else {
            Some(self.messages[0].duplicate())
        }
    }

    /// Takes the head of the inbox out.
    pub fn take_first_msg(&mut self) -> (r: Option<Message>)
        ensures
            *final(self) == (Node {
                messages: final(self).messages,
                ..*old(self)
            }),
            old(self).messages@.len() == 0 ==> r is None && final(self).messages@
                == old(self).messages@,
            old(self).messages@.len() > 0 ==> r == Some(old(self).messages@[0])
                && final(self).messages@ == old(self).messages@.drop_first(),
    {
        if self.messages.len() == 0 {
            return None;
        }
        let m = self.messages.remove(0);
        assert(self.messages@ =~= old(self).messages@.drop_first());
        Some(m)
    }

    /// Apply-read handler: the reply carries this replica's value.
    pub fn handle_coordinator_read_request(&self, node_id: NodeId) -> (r: Message)
        ensures
            r == Message::CoordinatorReadResponse(self.data),
    {
        Message::CoordinatorReadResponse(self.data.duplicate())
    }

    /// Apply-write handler: takes the value unless it is older than the one
    /// held, and acknowledges either way.
    pub fn handle_coordinator_write_request(&mut self, node_id: NodeId, new_data: NodeData) -> (r:
        Message)
        ensures
            r == Message::WriteAck(old(self).id),
            *final(self) == (Node {
                data: if new_data.version >= old(self).data.version {
                    new_data
                } else {
                    old(self).data
                },
                ..*old(self)
            }),
    {
        if new_data.version >= self.data.version {
            self.data = new_data;
        }
        Message::WriteAck(self.id)
    }
}

} // verus!
