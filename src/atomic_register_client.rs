use vstd::prelude::*;

use crate::cluster::{read_outcome, write_outcome, Cluster, RegisterError};
use crate::network::after_first_reply;
use crate::node::{Message, NodeData};

verus! {

/// Identity of a client; clients of a cluster are numbered from zero.
#[derive(Clone, Copy, Debug, Hash, PartialEq, Eq, Structural)]
pub struct ClientId(pub usize);

/// `post` is `pre` with the client's queue consumed up to its first reply.
pub open spec fn consumed_reply(pre: Cluster, post: Cluster, client: int, ack: bool) -> bool {
    &&& post.nodes == pre.nodes
    &&& post.threshold == pre.threshold
    &&& post.last_write == pre.last_write
    &&& post.network.node_inboxes == pre.network.node_inboxes
    &&& post.network.coordinator_id == pre.network.coordinator_id
    &&& post.other_clients_unchanged(pre, client)
    &&& post.network.client_queue(client) == after_first_reply(pre.network.client_queue(client), ack)
}

/// A client of the register; it sends its requests to the cluster's
/// well-known coordinator.
pub struct AtomicRegisterClinent {
    pub id: ClientId,
}

impl AtomicRegisterClinent {
    pub fn new(id: ClientId) -> (r: AtomicRegisterClinent)
        ensures
            r.id == id,
    {
        AtomicRegisterClinent { id }
    }

    /// Writes `data` through the well-known coordinator, then takes its
    /// queue up to and including the first acknowledgement.
    pub fn write(&self, cluster: &mut Cluster, data: String) -> (r: Result<u32, RegisterError>)
        requires
            old(cluster).wf(),
        ensures
            final(cluster).wf(),
            exists|mid: Cluster|
                write_outcome(
                    *old(cluster),
                    mid,
                    old(cluster).network.coordinator_id.0 as int,
                    self.id.0 as int,
                    data,
                    r,
                ) && if r is Ok {
                    consumed_reply(mid, *final(cluster), self.id.0 as int, true)
                } else {
                    *final(cluster) == mid
                },
    {
        let coordinator = cluster.network.coordinator_id.0;
        let r = cluster.write(coordinator, self.id, data);
        let ghost mid = *cluster;
        if r.is_ok() {
            self.consume_reply(cluster, true);
            proof {
                Cluster::lemma_wf_clients_only(mid, *cluster);
            }
        }
        r
    }

    /// Reads through the well-known coordinator, then takes its queue up to
    /// and including the first value sent to it.
    pub fn read(&self, cluster: &mut Cluster) -> (r: Result<NodeData, RegisterError>)
        requires
            old(cluster).wf(),
        ensures
            final(cluster).wf(),
            exists|mid: Cluster|
                read_outcome(
                    *old(cluster),
                    mid,
                    old(cluster).network.coordinator_id.0 as int,
                    self.id.0 as int,
                    r,
                ) && if r is Ok {
                    consumed_reply(mid, *final(cluster), self.id.0 as int, false)
                } else {
                    *final(cluster) == mid
                },
    {
        let coordinator = cluster.network.coordinator_id.0;
        let r = cluster.read(coordinator, self.id);
        let ghost mid = *cluster;
        if r.is_ok() {
            self.consume_reply(cluster, false);
            proof {
                Cluster::lemma_wf_clients_only(mid, *cluster);
            }
        }
        r
    }

    /// Takes messages off this client's queue up to and including the first
    /// awaited reply, or all of them if none is there.
    fn consume_reply(&self, cluster: &mut Cluster, ack: bool)
        requires
            self.id.0 < old(cluster).network.client_inboxes@.len(),
        ensures
            consumed_reply(*old(cluster), *final(cluster), self.id.0 as int, ack),
    {
        cluster.network.take_through_reply(&self.id, ack);
    }

    /// Takes the next message waiting for this client, if any.
    pub fn receive(&self, cluster: &mut Cluster) -> (r: Option<Message>)
        requires
            self.id.0 < old(cluster).network.client_inboxes@.len(),
        ensures
            final(cluster).nodes == old(cluster).nodes,
            final(cluster).threshold == old(cluster).threshold,
            final(cluster).last_write == old(cluster).last_write,
            final(cluster).network.node_inboxes == old(cluster).network.node_inboxes,
            final(cluster).network.client_inboxes@.len() == old(cluster).network.client_inboxes@.len(),
            old(cluster).network.client_queue(self.id.0 as int).len() == 0 ==> r is None,
            old(cluster).network.client_queue(self.id.0 as int).len() > 0 ==> r == Some(
                old(cluster).network.client_queue(self.id.0 as int)[0],
            ),
    {
        cluster.network.get(&self.id)
    }
}

} // verus!
