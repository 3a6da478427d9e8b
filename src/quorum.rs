use vstd::prelude::*;

use crate::node::{NodeData, NodeId};

verus! {

/// The phase of the operation a node is coordinating, with the number of
/// responses tallied so far.
#[derive(Clone, Copy, Debug, PartialEq, Eq, Structural)]
pub enum QuorumState {
    WaitingForWriteAck(usize),
    WaitingForReadResponse(usize),
    WaitingForRequest,
}

/// Tally of the responses of one coordinator phase against a fixed threshold.
pub struct Quorum {
    pub acks: usize,
    pub node_datas: Vec<NodeData>,
    pub node_ids: Vec<NodeId>,
    pub quorum_state: QuorumState,
}

impl Quorum {
    /// The tracker is idle: no phase is being tallied and nothing is collected.
    pub open spec fn idle(&self) -> bool {
        &&& self.quorum_state == QuorumState::WaitingForRequest
        &&& self.node_datas@.len() == 0
        &&& self.node_ids@.len() == 0
    }

    pub fn new(acks: usize) -> (r: Quorum)
        ensures
            r.acks == acks,
            r.idle(),
    {
        Quorum { acks, node_datas: Vec::new(), node_ids: Vec::new(), quorum_state: QuorumState::WaitingForRequest }
    }

    /// Ends the current phase: back to idle, collected responses dropped.
    pub fn go_to_waiting_requst(&mut self)
        ensures
            final(self).acks == old(self).acks,
            final(self).idle(),
    {
        self.quorum_state = QuorumState::WaitingForRequest;
        self.node_datas.clear();
        self.node_ids.clear();
    }

    /// Starts tallying read responses from zero.
    pub fn begin_read(&mut self)
        requires
            old(self).idle(),
        ensures
            final(self).acks == old(self).acks,
            final(self).quorum_state == QuorumState::WaitingForReadResponse(0),
            final(self).node_datas@.len() == 0,
            final(self).node_ids@.len() == 0,
    {
        self.quorum_state = QuorumState::WaitingForReadResponse(0);
    }

    /// Starts tallying write acknowledgements from zero.
    pub fn begin_write(&mut self)
        requires
            old(self).idle(),
        ensures
            final(self).acks == old(self).acks,
            final(self).quorum_state == QuorumState::WaitingForWriteAck(0),
            final(self).node_datas@.len() == 0,
            final(self).node_ids@.len() == 0,
    {
        self.quorum_state = QuorumState::WaitingForWriteAck(0);
    }

    pub fn is_read_coordinator(&self) -> (r: bool)
        ensures
            r == self.quorum_state is WaitingForReadResponse,
    {
        match self.quorum_state {
            QuorumState::WaitingForReadResponse(_) => true,
            _ => false,
        }
    }

    pub fn is_waiting_request(&self) -> (r: bool)
        ensures
            r == self.quorum_state is WaitingForRequest,
    {
        match self.quorum_state {
            QuorumState::WaitingForRequest => true,
            _ => false,
        }
    }

    pub fn is_write_coordinator(&self) -> (r: bool)
        ensures
            r == self.quorum_state is WaitingForWriteAck,
    {
        match self.quorum_state {
            QuorumState::WaitingForWriteAck(_) => true,
            _ => false,
        }
    }

    /// True when exactly the threshold of read responses has been tallied.
    pub fn done_read_quorum(&self) -> (r: bool)
        ensures
            r == (self.quorum_state == QuorumState::WaitingForReadResponse(self.acks)),
    {
        match self.quorum_state {
            QuorumState::WaitingForReadResponse(count) => count == self.acks,
            _ => false,
        }
    }

    /// True when exactly the threshold of write acknowledgements has been tallied.
    pub fn done_write_quorum(&self) -> (r: bool)
        ensures
            r == (self.quorum_state == QuorumState::WaitingForWriteAck(self.acks)),
    {
        match self.quorum_state {
            QuorumState::WaitingForWriteAck(count) => count == self.acks,
            _ => false,
        }
    }

    pub fn increase_write_ack_count(&mut self)
        requires
            old(self).quorum_state matches QuorumState::WaitingForWriteAck(n) && n < usize::MAX,
        ensures
            final(self).acks == old(self).acks,
            final(self).node_datas == old(self).node_datas,
            final(self).node_ids == old(self).node_ids,
            final(self).quorum_state == QuorumState::WaitingForWriteAck(
                (old(self).quorum_state->WaitingForWriteAck_0 + 1) as usize,
            ),
    {
        match self.quorum_state {
            QuorumState::WaitingForWriteAck(count) => {
                self.quorum_state = QuorumState::WaitingForWriteAck(count + 1);
            },
            _ => {},
        }
    }

    pub fn increase_read_ack_count(&mut self)
        requires
            old(self).quorum_state matches QuorumState::WaitingForReadResponse(n) && n < usize::MAX,
        ensures
            final(self).acks == old(self).acks,
            final(self).node_datas == old(self).node_datas,
            final(self).node_ids == old(self).node_ids,
            final(self).quorum_state == QuorumState::WaitingForReadResponse(
                (old(self).quorum_state->WaitingForReadResponse_0 + 1) as usize,
            ),
    {
        match self.quorum_state {
            QuorumState::WaitingForReadResponse(count) => {
                self.quorum_state = QuorumState::WaitingForReadResponse(count + 1);
            },
            _ => {},
        }
    }

    /// Tallies one read response, keeping the value it carried.
    pub fn record_read_response(&mut self, data: NodeData)
        requires
            old(self).quorum_state matches QuorumState::WaitingForReadResponse(n) && n < usize::MAX,
        ensures
            final(self).acks == old(self).acks,
            final(self).node_datas@ == old(self).node_datas@.push(data),
            final(self).node_ids == old(self).node_ids,
            final(self).quorum_state == QuorumState::WaitingForReadResponse(
                (old(self).quorum_state->WaitingForReadResponse_0 + 1) as usize,
            ),
    {
        self.node_datas.push(data);
        self.increase_read_ack_count();
    }

    /// Tallies a write acknowledgement unless one from the same replica was
    /// already counted; returns whether it was counted.
    pub fn record_write_ack(&mut self, id: NodeId) -> (counted: bool)
        requires
            old(self).quorum_state matches QuorumState::WaitingForWriteAck(n) && n < usize::MAX,
        ensures
            counted == !old(self).node_ids@.contains(id),
            final(self).acks == old(self).acks,
            final(self).node_datas == old(self).node_datas,
            counted ==> final(self).node_ids@ == old(self).node_ids@.push(id),
            counted ==> final(self).quorum_state == QuorumState::WaitingForWriteAck(
                (old(self).quorum_state->WaitingForWriteAck_0 + 1) as usize,
            ),
            !counted ==> *final(self) == *old(self),
    {
        let mut i: usize = 0;
        while i < self.node_ids.len()
            invariant
                0 <= i <= self.node_ids@.len(),
                forall|j: int| 0 <= j < i ==> self.node_ids@[j] != id,
            decreases self.node_ids@.len() - i,
        {
            if self.node_ids[i] == id {
                return false;
            }
            i = i + 1;
        }
        self.node_ids.push(id);
        self.increase_write_ack_count();
        true
    }
}

} // verus!
