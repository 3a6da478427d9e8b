use vstd::prelude::*;

use crate::atomic_register_client::ClientId;
use crate::network::Network;
use crate::quorum::QuorumState;
use crate::node::{accepted_by, fault_outcome, FAULT_DRAW_RANGE, is_newest_at, newest_of, next_version, Message, Node, NodeData, NodeId, NodeState};

verus! {

/// Why a register operation did not complete.
#[derive(Clone, Copy, Debug, PartialEq, Eq, Structural)]
pub enum RegisterError {
    /// Fewer than one replica, or a threshold whose quorums need not intersect.
    InvalidThreshold,
    /// The named replica does not exist.
    UnknownNode,
    /// The named client does not exist.
    UnknownClient,
    /// The coordinator is stalled, or fewer replicas than the threshold respond.
    QuorumTimeout,
    /// The next version would not fit in a `u32`.
    VersionOverflow,
}

/// Number of `true` entries.
pub open spec fn count(s: Seq<bool>) -> nat
    decreases s.len(),
{
    if s.len() == 0 {
        0
    } else {
        count(s.drop_last()) + if s.last() {
            1nat
        } else {
            0nat
        }
    }
}

proof fn lemma_count_update(s: Seq<bool>, j: int)
    requires
        0 <= j < s.len(),
        !s[j],
    ensures
        count(s.update(j, true)) == count(s) + 1,
    decreases s.len(),
{
    let t = s.update(j, true);
    if j < s.len() - 1 {
        lemma_count_update(s.drop_last(), j);
        assert(t.drop_last() =~= s.drop_last().update(j, true));
    } else {
        assert(t.drop_last() =~= s.drop_last());
    }
}

proof fn lemma_count_mono(a: Seq<bool>, b: Seq<bool>)
    requires
        a.len() == b.len(),
        forall|i: int| 0 <= i < a.len() && a[i] ==> b[i],
    ensures
        count(a) <= count(b),
    decreases a.len(),
{
    if a.len() > 0 {
        lemma_count_mono(a.drop_last(), b.drop_last());
    }
}

proof fn lemma_count_none(a: Seq<bool>)
    requires
        forall|i: int| 0 <= i < a.len() ==> !a[i],
    ensures
        count(a) == 0,
    decreases a.len(),
{
    if a.len() > 0 {
        lemma_count_none(a.drop_last());
    }
}

proof fn lemma_count_true(a: Seq<bool>)
    requires
        forall|i: int| 0 <= i < a.len() ==> a[i],
    ensures
        count(a) == a.len(),
    decreases a.len(),
{
    if a.len() > 0 {
        lemma_count_true(a.drop_last());
    }
}

proof fn lemma_count_le_len(a: Seq<bool>)
    ensures
        count(a) <= a.len(),
    decreases a.len(),
{
    if a.len() > 0 {
        lemma_count_le_len(a.drop_last());
    }
}

/// Two masks with more `true` entries between them than positions share one.
proof fn lemma_overlap(a: Seq<bool>, b: Seq<bool>)
    requires
        a.len() == b.len(),
        count(a) + count(b) > a.len(),
    ensures
        exists|i: int| 0 <= i < a.len() && a[i] && b[i],
    decreases a.len(),
{
    lemma_count_le_len(a.drop_last());
    lemma_count_le_len(b.drop_last());
    if !(a.last() && b.last()) {
        lemma_overlap(a.drop_last(), b.drop_last());
        let i = choose|i: int| 0 <= i < a.len() - 1 && a.drop_last()[i] && b.drop_last()[i];
        assert(a[i] && b[i]);
    }
}

proof fn lemma_count_prefix(s: Seq<bool>, i: int)
    requires
        0 <= i < s.len(),
    ensures
        count(s.take(i + 1)) == count(s.take(i)) + if s[i] {
            1nat
        } else {
            0nat
        },
{
    assert(s.take(i + 1).drop_last() =~= s.take(i));
}

/// A replica value or a buffered write that is not newer than the register
/// value, and equal to it when at the same version.
pub open spec fn no_newer_than(d: NodeData, top: NodeData) -> bool {
    d.version < top.version || d == top
}

pub open spec fn request_no_newer_than(m: Message, top: NodeData) -> bool {
    m matches Message::CoordinatorWriteRequest(_, d) ==> no_newer_than(d, top)
}

/// Which replicas are responsive and other than `c`.
pub open spec fn others_mask(resp: Seq<bool>, c: int) -> Seq<bool> {
    Seq::new(resp.len(), |k: int| resp[k] && k != c)
}

/// Number of responsive replicas other than `c` with index below `j`.
pub open spec fn others_before(resp: Seq<bool>, c: int, j: int) -> nat {
    count(others_mask(resp, c).take(j))
}

proof fn lemma_others_total(resp: Seq<bool>, c: int)
    requires
        0 <= c < resp.len(),
        resp[c],
    ensures
        others_before(resp, c, resp.len() as int) + 1 == count(resp),
{
    let o = others_mask(resp, c);
    lemma_count_update(o, c);
    assert(o.update(c, true) =~= resp);
    assert(o.take(resp.len() as int) =~= o);
}

/// The replicas tallied by coordinator `c` after polling those below `i`.
pub open spec fn seen_mask(resp: Seq<bool>, c: int, t: int, i: int) -> Seq<bool> {
    Seq::new(
        resp.len(),
        |j: int| j == c || (j < i && j != c && resp[j] && others_before(resp, c, j) < t - 1),
    )
}

/// What a write of `value` at coordinator `c` for `client` does: the checks
/// in order, then on success a version one past the register's, taken by
/// every responsive replica, and an acknowledgement to the client.
pub open spec fn write_outcome(
    pre: Cluster,
    post: Cluster,
    c: int,
    client: int,
    value: String,
    r: Result<u32, RegisterError>,
) -> bool {
    if c >= pre.n() {
        r == Err::<u32, RegisterError>(RegisterError::UnknownNode) && post == pre
    } else if client >= pre.network.client_inboxes@.len() {
        r == Err::<u32, RegisterError>(RegisterError::UnknownClient) && post == pre
    } else if !pre.quorum_reachable(c) {
        r == Err::<u32, RegisterError>(RegisterError::QuorumTimeout) && post == pre
    } else if pre.register_value().version == u32::MAX {
        &&& r == Err::<u32, RegisterError>(RegisterError::VersionOverflow)
        &&& post.register_value() == pre.register_value()
        &&& post.same_replicas(pre)
        &&& post.network.client_inboxes == pre.network.client_inboxes
        &&& post.queued_for_stalled(
            pre,
            c,
            Message::CoordinatorReadRequest(NodeId(c as usize)),
            None,
        )
    } else {
        &&& r == Ok::<u32, RegisterError>((pre.register_value().version + 1) as u32)
        &&& post.register_value() == NodeData {
            data: value,
            version: (pre.register_value().version + 1) as u32,
        }
        &&& post.took_where_responsive(pre)
        &&& post.network.client_queue(client) == pre.network.client_queue(client).push(
            Message::WriteAck(NodeId(c as usize)),
        )
        &&& post.queued_for_stalled(
            pre,
            c,
            Message::CoordinatorReadRequest(NodeId(c as usize)),
            Some(Message::CoordinatorWriteRequest(NodeId(c as usize), post.register_value())),
        )
        &&& post.other_clients_unchanged(pre, client)
    }
}

/// What a read at coordinator `c` for `client` does: the checks in order,
/// then on success the register value, a repair of the responsive replicas
/// when a tallied one lagged, and the value sent to the client.
pub open spec fn read_outcome(
    pre: Cluster,
    post: Cluster,
    c: int,
    client: int,
    r: Result<NodeData, RegisterError>,
) -> bool {
    if c >= pre.n() {
        r == Err::<NodeData, RegisterError>(RegisterError::UnknownNode) && post == pre
    } else if client >= pre.network.client_inboxes@.len() {
        r == Err::<NodeData, RegisterError>(RegisterError::UnknownClient) && post == pre
    } else if !pre.quorum_reachable(c) {
        r == Err::<NodeData, RegisterError>(RegisterError::QuorumTimeout) && post == pre
    } else {
        &&& r == Ok::<NodeData, RegisterError>(pre.register_value())
        &&& post.register_value() == pre.register_value()
        &&& if pre.repair_needed(c) {
            post.took_where_responsive(pre)
        } else {
            post.same_replicas(pre)
        }
        &&& post.network.client_queue(client) == pre.network.client_queue(client).push(
            Message::ClientReadResponse(pre.register_value()),
        )
        &&& post.queued_for_stalled(
            pre,
            c,
            Message::CoordinatorReadRequest(NodeId(c as usize)),
            if pre.repair_needed(c) {
                Some(Message::CoordinatorWriteRequest(NodeId(c as usize), pre.register_value()))
            } else {
                None
            },
        )
        &&& post.other_clients_unchanged(pre, client)
    }
}

/// A replica value after the writes among `s` were applied in order, each
/// taken unless older than the value held.
pub open spec fn apply_pending(d: NodeData, s: Seq<Message>) -> NodeData
    decreases s.len(),
{
    if s.len() == 0 {
        d
    } else {
        let next = match s[0] {
            Message::CoordinatorWriteRequest(_, w) => if w.version >= d.version {
                w
            } else {
                d
            },
            _ => d,
        };
        apply_pending(next, s.drop_first())
    }
}

/// No client request among `s`.
pub open spec fn client_request_free(s: Seq<Message>) -> bool {
    forall|k: int|
        0 <= k < s.len() ==> !(#[trigger] s[k] is ClientWriteRequest) && !(s[k] is ClientReadRequest)
}

proof fn lemma_free_skip(a: Seq<Message>, b: Seq<Message>)
    requires
        b.len() > 0,
        client_request_free(a + b),
    ensures
        client_request_free(a + b.drop_first()),
{
    let s = a + b;
    let t = a + b.drop_first();
    assert forall|k: int| 0 <= k < t.len() implies !(#[trigger] t[k] is ClientWriteRequest) && !(
    t[k] is ClientReadRequest) by {
        if k < a.len() {
            assert(t[k] == s[k]);
        } else {
            assert(t[k] == s[k + 1]);
        }
    }
}

proof fn lemma_apply_skip(d: NodeData, a: Seq<Message>, b: Seq<Message>)
    requires
        b.len() > 0,
        !(b[0] is CoordinatorWriteRequest),
    ensures
        apply_pending(d, a + b) == apply_pending(d, a + b.drop_first()),
    decreases a.len(),
{
    if a.len() == 0 {
        assert(a + b =~= b);
        assert(a + b.drop_first() =~= b.drop_first());
    } else {
        let next = match a[0] {
            Message::CoordinatorWriteRequest(_, w) => if w.version >= d.version {
                w
            } else {
                d
            },
            _ => d,
        };
        lemma_apply_skip(next, a.drop_first(), b);
        assert((a + b).drop_first() =~= a.drop_first() + b);
        assert((a + b.drop_first()).drop_first() =~= a.drop_first() + b.drop_first());
        assert((a + b)[0] == a[0]);
        assert((a + b.drop_first())[0] == a[0]);
    }
}

/// The replicas whose answers coordinator `c` tallies in a read phase: itself,
/// then the responsive others in index order until `t` answers are in.
pub open spec fn members(resp: Seq<bool>, c: int, t: int) -> Seq<bool> {
    Seq::new(
        resp.len(),
        |j: int| j == c || (j != c && resp[j] && others_before(resp, c, j) < t - 1),
    )
}

/// The register: its replicas, the transport between them and the clients,
/// and the quorum threshold. `last_write` is the value of the most recent
/// completed write (version zero and empty before any).
pub struct Cluster {
    pub nodes: Vec<Node>,
    pub network: Network,
    pub threshold: usize,
    pub last_write: Ghost<NodeData>,
}

impl Cluster {
    pub open spec fn n(&self) -> int {
        self.nodes@.len() as int
    }

    pub open spec fn register_value(&self) -> NodeData {
        self.last_write@
    }

    pub open spec fn responsive_mask(&self) -> Seq<bool> {
        Seq::new(self.nodes@.len(), |i: int| self.nodes@[i].responsive())
    }

    pub open spec fn holders(&self) -> Seq<bool> {
        Seq::new(self.nodes@.len(), |i: int| self.nodes@[i].data == self.last_write@)
    }

    pub open spec fn wf_shape(&self) -> bool {
        &&& self.n() >= 1
        &&& self.network.node_inboxes@.len() == self.n()
        &&& 1 <= self.threshold <= self.n()
        &&& 2 * self.threshold > self.n()
        &&& forall|i: int|
            0 <= i < self.n() ==> {
                &&& (#[trigger] self.nodes@[i]).id == NodeId(i as usize)
                &&& self.nodes@[i].quorum.acks == self.threshold
                &&& self.nodes@[i].quorum.idle()
            }
    }

    pub open spec fn wf_data(&self) -> bool {
        &&& forall|i: int|
            0 <= i < self.n() ==> no_newer_than((#[trigger] self.nodes@[i]).data, self.last_write@)
        &&& forall|i: int, k: int|
            0 <= i < self.n() && 0 <= k < self.nodes@[i].messages@.len() ==> request_no_newer_than(
                #[trigger] self.nodes@[i].messages@[k],
                self.last_write@,
            )
        &&& forall|i: int, k: int|
            0 <= i < self.n() && 0 <= k < self.network.node_queue(i).len()
                ==> request_no_newer_than(
                #[trigger] self.network.node_queue(i)[k],
                self.last_write@,
            )
    }

    /// Well-formed: every replica and every buffered write is no newer than
    /// the register value, which at least a quorum of replicas holds.
    pub open spec fn wf(&self) -> bool {
        &&& self.wf_shape()
        &&& self.wf_data()
        &&& count(self.holders()) >= self.threshold
    }

    /// The responsive replicas are enough for a quorum, the coordinator among them.
    pub open spec fn quorum_reachable(&self, c: int) -> bool {
        &&& self.nodes@[c].responsive()
        &&& count(self.responsive_mask()) >= self.threshold
    }

    pub open spec fn read_members(&self, c: int) -> Seq<bool> {
        members(self.responsive_mask(), c, self.threshold as int)
    }

    /// Some replica tallied in the read phase lags behind the register value.
    pub open spec fn repair_needed(&self, c: int) -> bool {
        exists|j: int|
            0 <= j < self.n() && #[trigger] self.read_members(c)[j] && self.nodes@[j].data.version
                < self.last_write@.version
    }

    /// State of a read phase of coordinator `c` after polling the replicas
    /// below `i`; `seen` marks the replicas whose values are tallied.
    spec fn collect_inv(&self, pre: Cluster, c: int, i: int, seen: Seq<bool>, src: Seq<int>) -> bool {
        let n = pre.n();
        let resp = pre.responsive_mask();
        let t = pre.threshold as int;
        let datas = self.nodes@[c].quorum.node_datas@;
        &&& 0 <= i <= n
        &&& 0 <= c < n
        &&& self.nodes@.len() == n
        &&& self.threshold == pre.threshold
        &&& self.last_write == pre.last_write
        &&& self.network.node_inboxes@.len() == n
        &&& self.network.client_inboxes == pre.network.client_inboxes
        &&& self.network.coordinator_id == pre.network.coordinator_id
        &&& forall|j: int|
            0 <= j < n ==> {
                &&& (#[trigger] self.nodes@[j]).data == pre.nodes@[j].data
                &&& self.nodes@[j].node_state == pre.nodes@[j].node_state
                &&& self.nodes@[j].id == pre.nodes@[j].id
                &&& self.nodes@[j].messages == pre.nodes@[j].messages
                &&& j != c ==> self.nodes@[j].quorum == pre.nodes@[j].quorum
            }
        &&& forall|j: int|
            0 <= j < n ==> #[trigger] self.network.node_queue(j) == if j < i && j != c && !resp[j] {
                pre.network.node_queue(j).push(Message::CoordinatorReadRequest(NodeId(c as usize)))
            } else {
                pre.network.node_queue(j)
            }
        &&& self.nodes@[c].quorum.acks == t
        &&& self.nodes@[c].quorum.node_ids@.len() == 0
        &&& count(seen) <= t
        &&& self.nodes@[c].quorum.quorum_state == QuorumState::WaitingForReadResponse(
            count(seen) as usize,
        )
        &&& count(seen) == 1 + if others_before(resp, c, i) < t - 1 {
            others_before(resp, c, i)
        } else {
            (t - 1) as nat
        }
        &&& seen == seen_mask(resp, c, t, i)
        &&& src.len() == datas.len()
        &&& forall|k: int|
            0 <= k < datas.len() ==> 0 <= #[trigger] src[k] < n && seen[src[k]] && datas[k]
                == pre.nodes@[src[k]].data
        &&& forall|j: int|
            0 <= j < n && #[trigger] seen[j] ==> exists|k: int|
                0 <= k < datas.len() && datas[k] == pre.nodes@[j].data
    }

    /// One poll of a read phase: replica `i` answers if it is responsive,
    /// other than the coordinator, and still needed; a stalled one gets the
    /// request in its queue.
    fn poll_replica(&mut self, c: usize, i: usize, Ghost(pre): Ghost<Cluster>, Ghost(seen): Ghost<Seq<bool>>, Ghost(src): Ghost<Seq<int>>) -> (after: Ghost<(Seq<bool>, Seq<int>)>)
        requires
            old(self).collect_inv(pre, c as int, i as int, seen, src),
            i < pre.n(),
            pre.wf(),
        ensures
            final(self).collect_inv(pre, c as int, i + 1, after@.0, after@.1),
    {
        let ghost resp = pre.responsive_mask();
        let ghost n = pre.n();
        let ghost t = pre.threshold as int;
        proof {
            lemma_count_prefix(others_mask(resp, c as int), i as int);
        }
        let ghost datas0 = self.nodes@[c as int].quorum.node_datas@;
        let ghost seen_in = seen;
        let ghost mut seen = seen;
        let ghost mut src = src;
        if i != c {
            if self.nodes[i].node_state == NodeState::Working {
                if !self.nodes[c].quorum.done_read_quorum() {
                    let ghost before = self.nodes@[c as int].quorum.node_datas@;
                    let ghost seen0 = seen;
                    let answer = self.nodes[i].handle_coordinator_read_request(NodeId(c));
                    match answer {
                        Message::CoordinatorReadResponse(d) => {
                            self.nodes[c].quorum.record_read_response(d);
                        },
                        _ => {},
                    }
                    proof {
                        lemma_count_update(seen, i as int);
                        seen = seen.update(i as int, true);
                        src = src.push(i as int);
                        let after = self.nodes@[c as int].quorum.node_datas@;
                        assert(after == before.push(pre.nodes@[i as int].data));
                        assert forall|k: int| 0 <= k < after.len() implies 0 <= #[trigger] src[k] < n
                            && seen[src[k]] && after[k] == pre.nodes@[src[k]].data by {
                            if k < before.len() {
                                assert(after[k] == before[k]);
                                assert(seen0[src[k]]);
                            }
                        }
                        assert forall|j: int| 0 <= j < n && #[trigger] seen[j] implies exists|k: int|
                            0 <= k < after.len() && after[k] == pre.nodes@[j].data by {
                            if j == i {
                                assert(after[before.len() as int] == pre.nodes@[j].data);
                            } else {
                                assert(seen0[j]);
                                let k = choose|k: int|
                                    0 <= k < before.len() && before[k] == pre.nodes@[j].data;
                                assert(after[k] == before[k]);
                            }
                        }
                    }
                }
            } else {
                let ghost q0 = self.network;
                self.network.send_to_node(&NodeId(i), Message::CoordinatorReadRequest(NodeId(c)));
                proof {
                    assert forall|j: int| 0 <= j < n && j != i implies #[trigger] self.network.node_queue(j) == q0.node_queue(j) by {
                        assert(self.network.node_inboxes@[j] == q0.node_inboxes@[j]);
                    }
                }
            }
        }
        proof {
            assert(seen =~= seen_mask(resp, c as int, t, i + 1));
        }
        Ghost((seen, src))
    }

    /// Read phase of coordinator `c`: tallies its own value and the answers
    /// of responsive replicas up to the threshold; a stalled replica gets the
    /// request in its queue. Returns the newest value tallied and whether a
    /// tallied replica lags behind it.
    #[verifier::rlimit(40)]
    fn collect(&mut self, c: usize) -> (r: (NodeData, bool))
        requires
            old(self).wf(),
            c < old(self).n(),
            old(self).quorum_reachable(c as int),
        ensures
            final(self).wf(),
            final(self).last_write == old(self).last_write,
            final(self).threshold == old(self).threshold,
            final(self).nodes@.len() == old(self).nodes@.len(),
            forall|j: int|
                0 <= j < old(self).n() ==> (#[trigger] final(self).nodes@[j]).data == old(self).nodes@[j].data && final(self).nodes@[j].node_state == old(self).nodes@[j].node_state,
            final(self).network.client_inboxes == old(self).network.client_inboxes,
            final(self).network.coordinator_id == old(self).network.coordinator_id,
            final(self).network.node_inboxes@.len() == old(self).network.node_inboxes@.len(),
            forall|j: int|
                0 <= j < old(self).n() ==> (#[trigger] final(self).nodes@[j]).messages == old(
                    self,
                ).nodes@[j].messages,
            forall|j: int|
                0 <= j < old(self).n() ==> #[trigger] final(self).network.node_queue(j) == if j != c
                    && !old(self).nodes@[j].responsive() {
                    old(self).network.node_queue(j).push(Message::CoordinatorReadRequest(NodeId(c)))
                } else {
                    old(self).network.node_queue(j)
                },
            r.0 == old(self).register_value(),
            r.1 == old(self).repair_needed(c as int),
    {
        let ghost pre = *self;
        let ghost n = self.n();
        let ghost resp = self.responsive_mask();
        let ghost t = self.threshold as int;
        let own = self.nodes[c].data.duplicate();
        self.nodes[c].quorum.begin_read();
        self.nodes[c].quorum.record_read_response(own);
        let ghost mut seen = Seq::new(n as nat, |j: int| j == c);
        let ghost mut src = seq![c as int];
        proof {
            assert(Seq::new(n as nat, |j: int| false).update(c as int, true) =~= seen);
            lemma_count_update(Seq::new(n as nat, |j: int| false), c as int);
            lemma_count_none(Seq::new(n as nat, |j: int| false));
            assert(others_mask(resp, c as int).take(0) =~= Seq::<bool>::empty());
            assert(self.nodes@[c as int].quorum.node_datas@[0] == pre.nodes@[c as int].data);
            assert(seen[c as int]);
            assert forall|j: int| 0 <= j < n && #[trigger] seen[j] implies exists|k: int|
                0 <= k < self.nodes@[c as int].quorum.node_datas@.len()
                    && self.nodes@[c as int].quorum.node_datas@[k] == pre.nodes@[j].data by {
                assert(j == c);
                assert(self.nodes@[c as int].quorum.node_datas@[0] == pre.nodes@[j].data);
            }
            assert(seen =~= seen_mask(resp, c as int, t, 0));
            assert(self.collect_inv(pre, c as int, 0, seen, src));
        }
        let mut i: usize = 0;
        while i < self.nodes.len()
            invariant
                self.collect_inv(pre, c as int, i as int, seen, src),
                pre.wf(),
            decreases pre.n() - i,
        {
            let Ghost(s2) = self.poll_replica(c, i, Ghost(pre), Ghost(seen), Ghost(src));
            proof {
                seen = s2.0;
                src = s2.1;
            }
            i = i + 1;
        }
        let ghost datas = self.nodes@[c as int].quorum.node_datas@;
        proof {
            lemma_others_total(resp, c as int);
            assert(seen =~= pre.read_members(c as int));
            lemma_overlap(seen, pre.holders());
            let j = choose|j: int| 0 <= j < n && seen[j] && pre.holders()[j];
            assert(seen[j]);
            let k = choose|k: int| 0 <= k < datas.len() && datas[k] == pre.nodes@[j].data;
            assert(datas[k] == pre.last_write@);
            assert forall|k: int| 0 <= k < datas.len() implies no_newer_than(
                #[trigger] datas[k],
                pre.last_write@,
            ) by {
                assert(0 <= src[k] < n);
                assert(no_newer_than(pre.nodes@[src[k]].data, pre.last_write@));
            }
        }
        let (best, stale) = newest_of(&self.nodes[c].quorum.node_datas);
        proof {
            let k0 = choose|k0: int| is_newest_at(datas, k0) && best == datas[k0];
            let k = choose|k: int| 0 <= k < datas.len() && datas[k] == pre.last_write@;
            assert(datas[k].version <= best.version);
            assert(no_newer_than(datas[k0], pre.last_write@));
            assert(best == pre.last_write@);
            if stale {
                let k = choose|k: int| 0 <= k < datas.len() && datas[k].version < best.version;
                let j = src[k];
                assert(pre.read_members(c as int)[j]);
            }
            if pre.repair_needed(c as int) {
                let j = choose|j: int|
                    0 <= j < n && #[trigger] pre.read_members(c as int)[j]
                        && pre.nodes@[j].data.version < pre.last_write@.version;
                assert(seen[j]);
                let k = choose|k: int| 0 <= k < datas.len() && datas[k] == pre.nodes@[j].data;
                assert(datas[k].version < best.version);
            }
        }
        self.nodes[c].quorum.go_to_waiting_requst();
        proof {
            assert(self.holders() =~= pre.holders());
        }
        (best, stale)
    }

    /// State of a write phase of coordinator `c` spreading `d`, after the
    /// replicas below `i` were sent it.
    spec fn propagate_inv(&self, pre: Cluster, c: int, i: int, d: NodeData) -> bool {
        let n = pre.n();
        let resp = pre.responsive_mask();
        &&& 0 <= i <= n
        &&& 0 <= c < n
        &&& self.nodes@.len() == n
        &&& self.threshold == pre.threshold
        &&& self.last_write == pre.last_write
        &&& self.network.node_inboxes@.len() == n
        &&& self.network.client_inboxes == pre.network.client_inboxes
        &&& self.network.coordinator_id == pre.network.coordinator_id
        &&& forall|j: int|
            0 <= j < n ==> {
                &&& (#[trigger] self.nodes@[j]).data == if j == c || (j < i && resp[j]) {
                    d
                } else {
                    pre.nodes@[j].data
                }
                &&& self.nodes@[j].node_state == pre.nodes@[j].node_state
                &&& self.nodes@[j].id == pre.nodes@[j].id
                &&& self.nodes@[j].messages == pre.nodes@[j].messages
                &&& j != c ==> self.nodes@[j].quorum == pre.nodes@[j].quorum
            }
        &&& forall|j: int|
            0 <= j < n ==> #[trigger] self.network.node_queue(j) == if j < i && j != c && !resp[j] {
                pre.network.node_queue(j).push(
                    Message::CoordinatorWriteRequest(NodeId(c as usize), d),
                )
            } else {
                pre.network.node_queue(j)
            }
        &&& self.nodes@[c].quorum.acks == pre.threshold
        &&& self.nodes@[c].quorum.quorum_state matches QuorumState::WaitingForWriteAck(k) && k
            <= pre.threshold
    }

    /// One step of a write phase: replica `i` applies the value and its
    /// acknowledgement is tallied if still needed; a stalled one gets the
    /// request in its queue.
    fn send_write(&mut self, c: usize, i: usize, d: &NodeData, Ghost(pre): Ghost<Cluster>)
        requires
            old(self).propagate_inv(pre, c as int, i as int, *d),
            i < pre.n(),
            pre.wf_shape(),
            pre.wf_data(),
            d.version >= pre.last_write@.version,
        ensures
            final(self).propagate_inv(pre, c as int, i + 1, *d),
    {
        let ghost n = pre.n();
        if i != c {
            if self.nodes[i].node_state == NodeState::Working {
                assert(no_newer_than(pre.nodes@[i as int].data, pre.last_write@));
                let ack = self.nodes[i].handle_coordinator_write_request(NodeId(c), d.duplicate());
                if !self.nodes[c].quorum.done_write_quorum() {
                    match ack {
                        Message::WriteAck(id) => {
                            self.nodes[c].quorum.record_write_ack(id);
                        },
                        _ => {},
                    }
                }
            } else {
                let ghost q0 = self.network;
                self.network.send_to_node(
                    &NodeId(i),
                    Message::CoordinatorWriteRequest(NodeId(c), d.duplicate()),
                );
                proof {
                    assert forall|j: int| 0 <= j < n && j != i implies #[trigger] self.network.node_queue(j) == q0.node_queue(j) by {
                        assert(self.network.node_inboxes@[j] == q0.node_inboxes@[j]);
                    }
                }
            }
        }
    }

    /// Write phase of coordinator `c`: it takes `d` itself, every responsive
    /// replica takes it and acknowledges, a stalled one gets the request in
    /// its queue.
    fn propagate(&mut self, c: usize, d: NodeData)
        requires
            old(self).wf_shape(),
            old(self).wf_data(),
            d == old(self).last_write@,
            c < old(self).n(),
            old(self).quorum_reachable(c as int),
        ensures
            final(self).wf(),
            final(self).last_write == old(self).last_write,
            final(self).threshold == old(self).threshold,
            final(self).nodes@.len() == old(self).nodes@.len(),
            forall|j: int|
                0 <= j < old(self).n() ==> (#[trigger] final(self).nodes@[j]).data == if old(self).nodes@[j].responsive() {
                    d
                } else {
                    old(self).nodes@[j].data
                } && final(self).nodes@[j].node_state == old(self).nodes@[j].node_state
                    && final(self).nodes@[j].messages == old(self).nodes@[j].messages,
            final(self).network.client_inboxes == old(self).network.client_inboxes,
            final(self).network.coordinator_id == old(self).network.coordinator_id,
            final(self).network.node_inboxes@.len() == old(self).network.node_inboxes@.len(),
            forall|j: int|
                0 <= j < old(self).n() ==> #[trigger] final(self).network.node_queue(j) == if j != c
                    && !old(self).nodes@[j].responsive() {
                    old(self).network.node_queue(j).push(
                        Message::CoordinatorWriteRequest(NodeId(c), d),
                    )
                } else {
                    old(self).network.node_queue(j)
                },
    {
        let ghost pre = *self;
        let ghost n = self.n();
        let ghost resp = self.responsive_mask();
        self.nodes[c].data = d.duplicate();
        self.nodes[c].quorum.begin_write();
        self.nodes[c].quorum.record_write_ack(NodeId(c));
        let mut i: usize = 0;
        while i < self.nodes.len()
            invariant
                self.propagate_inv(pre, c as int, i as int, d),
                pre.wf_shape(),
                pre.wf_data(),
                d == pre.last_write@,
            decreases pre.n() - i,
        {
            self.send_write(c, i, &d, Ghost(pre));
            i = i + 1;
        }
        self.nodes[c].quorum.go_to_waiting_requst();
        proof {
            assert forall|j: int| 0 <= j < n && #[trigger] resp[j] implies self.holders()[j] by {
                assert(self.nodes@[j].data == d);
            }
            lemma_count_mono(resp, self.holders());
            assert forall|j: int, k: int|
                0 <= j < n && 0 <= k < self.network.node_queue(j).len() implies request_no_newer_than(
                #[trigger] self.network.node_queue(j)[k],
                self.last_write@,
            ) by {
                if k < pre.network.node_queue(j).len() {
                    assert(request_no_newer_than(pre.network.node_queue(j)[k], pre.last_write@));
                }
            }
            assert forall|j: int, k: int|
                0 <= j < n && 0 <= k < self.nodes@[j].messages@.len() implies request_no_newer_than(
                #[trigger] self.nodes@[j].messages@[k],
                self.last_write@,
            ) by {
                assert(request_no_newer_than(pre.nodes@[j].messages@[k], pre.last_write@));
            }
        }
    }

    /// The same clients, all but `client` with the same queue.
    pub open spec fn other_clients_unchanged(&self, pre: Cluster, client: int) -> bool {
        &&& self.network.client_inboxes@.len() == pre.network.client_inboxes@.len()
        &&& forall|k: int|
            0 <= k < pre.network.client_inboxes@.len() && k != client ==> #[trigger] self.network.client_queue(k)
                == pre.network.client_queue(k)
    }

    /// No client request waits for replica `i`, in its inbox or its queue.
    pub open spec fn pending_calm(&self, i: int) -> bool {
        client_request_free(self.nodes@[i].messages@ + self.network.node_queue(i))
    }

    /// Same replicas, holding the same values, in the same health.
    pub open spec fn same_replicas(&self, pre: Cluster) -> bool {
        &&& self.nodes@.len() == pre.nodes@.len()
        &&& self.responsive_mask() == pre.responsive_mask()
        &&& forall|j: int|
            0 <= j < pre.n() ==> (#[trigger] self.nodes@[j]).data == pre.nodes@[j].data
                && self.nodes@[j].node_state == pre.nodes@[j].node_state
                && self.nodes@[j].messages == pre.nodes@[j].messages
    }

    /// Every responsive replica of `pre` now holds the register value; the
    /// others are unchanged.
    pub open spec fn took_where_responsive(&self, pre: Cluster) -> bool {
        &&& self.nodes@.len() == pre.nodes@.len()
        &&& self.responsive_mask() == pre.responsive_mask()
        &&& forall|j: int|
            0 <= j < pre.n() ==> (#[trigger] self.nodes@[j]).data == if pre.nodes@[j].responsive() {
                self.last_write@
            } else {
                pre.nodes@[j].data
            } && self.nodes@[j].node_state == pre.nodes@[j].node_state
                && self.nodes@[j].messages == pre.nodes@[j].messages
    }

    /// Same threshold, coordinator address and replica queues count; each
    /// replica other than `c` that is not working had `first`, then `second`
    /// when given, appended to its queue.
    pub open spec fn queued_for_stalled(
        &self,
        pre: Cluster,
        c: int,
        first: Message,
        second: Option<Message>,
    ) -> bool {
        &&& self.threshold == pre.threshold
        &&& self.network.coordinator_id == pre.network.coordinator_id
        &&& self.network.node_inboxes@.len() == pre.network.node_inboxes@.len()
        &&& forall|j: int|
            0 <= j < pre.n() ==> #[trigger] self.network.node_queue(j) == if j != c
                && !pre.nodes@[j].responsive() {
                match second {
                    Some(m) => pre.network.node_queue(j).push(first).push(m),
                    None => pre.network.node_queue(j).push(first),
                }
            } else {
                pre.network.node_queue(j)
            }
    }

    /// Checks shared by reads and writes, in order.
    fn check_operation(&self, coordinator: usize, client: ClientId) -> (r: Result<(), RegisterError>)
        requires
            self.wf(),
        ensures
            r == if coordinator >= self.n() {
                Err(RegisterError::UnknownNode)
            } else if client.0 >= self.network.client_inboxes@.len() {
                Err(RegisterError::UnknownClient)
            } else if !self.quorum_reachable(coordinator as int) {
                Err(RegisterError::QuorumTimeout)
            } else {
                Ok::<(), RegisterError>(())
            },
    {
        if coordinator >= self.nodes.len() {
            return Err(RegisterError::UnknownNode);
        }
        if client.0 >= self.network.client_inboxes.len() {
            return Err(RegisterError::UnknownClient);
        }
        if self.nodes[coordinator].node_state != NodeState::Working
            || self.count_responsive() < self.threshold {
            return Err(RegisterError::QuorumTimeout);
        }
        Ok(())
    }

    /// A client's write, coordinated by replica `coordinator`: discovers the
    /// highest version held by a quorum, gives the value the next one, and
    /// acknowledges once a quorum holds it.
    pub fn write(&mut self, coordinator: usize, client: ClientId, value: String) -> (r: Result<
        u32,
        RegisterError,
    >)
        requires
            old(self).wf(),
        ensures
            final(self).wf(),
            write_outcome(*old(self), *final(self), coordinator as int, client.0 as int, value, r),
    {
        let ghost pre = *self;
        match self.check_operation(coordinator, client) {
            Err(e) => {
                return Err(e);
            },
            Ok(()) => {},
        }
        let (best, _) = self.collect(coordinator);
        let ghost after_collect = *self;
        if best.version == u32::MAX {
            proof {
                assert(self.responsive_mask() =~= pre.responsive_mask());
                assert(self.queued_for_stalled(
                    pre,
                    coordinator as int,
                    Message::CoordinatorReadRequest(NodeId(coordinator)),
                    None,
                ));
            }
            return Err(RegisterError::VersionOverflow);
        }
        let version = best.version + 1;
        let d = NodeData { data: value, version };
        let ghost mid = *self;
        proof {
            self.last_write = Ghost(d);
            assert forall|i: int| 0 <= i < self.n() implies no_newer_than(
                #[trigger] self.nodes@[i].data,
                self.last_write@,
            ) by {
                assert(no_newer_than(mid.nodes@[i].data, mid.last_write@));
            }
            assert forall|i: int, k: int|
                0 <= i < self.n() && 0 <= k < self.nodes@[i].messages@.len() implies request_no_newer_than(
                #[trigger] self.nodes@[i].messages@[k],
                self.last_write@,
            ) by {
                assert(request_no_newer_than(mid.nodes@[i].messages@[k], mid.last_write@));
            }
            assert forall|i: int, k: int|
                0 <= i < self.n() && 0 <= k < self.network.node_queue(i).len()
                    implies request_no_newer_than(
                #[trigger] self.network.node_queue(i)[k],
                self.last_write@,
            ) by {
                assert(request_no_newer_than(mid.network.node_queue(i)[k], mid.last_write@));
            }
            assert(self.responsive_mask() =~= pre.responsive_mask());
        }
        self.propagate(coordinator, d);
        let ghost before_reply = *self;
        self.network.send_to_client(&client, Message::WriteAck(NodeId(coordinator)));
        proof {
            Self::lemma_wf_same_replicas(before_reply, *self);
            assert(self.responsive_mask() =~= pre.responsive_mask());
            assert forall|j: int| 0 <= j < pre.n() implies #[trigger] self.network.node_queue(j)
                == if j != coordinator && !pre.nodes@[j].responsive() {
                pre.network.node_queue(j).push(Message::CoordinatorReadRequest(NodeId(coordinator))).push(
                    Message::CoordinatorWriteRequest(NodeId(coordinator), self.last_write@),
                )
            } else {
                pre.network.node_queue(j)
            } by {
                assert(self.network.node_queue(j) == before_reply.network.node_queue(j));
                assert(after_collect.nodes@[j].node_state == pre.nodes@[j].node_state);
                assert(after_collect.network.node_queue(j) == if j != coordinator && !pre.nodes@[j].responsive() {
                    pre.network.node_queue(j).push(Message::CoordinatorReadRequest(NodeId(coordinator)))
                } else {
                    pre.network.node_queue(j)
                });
            }
        }
        Ok(version)
    }

    /// A client's read, coordinated by replica `coordinator`: takes the
    /// newest value a quorum holds, writes it back first if a tallied replica
    /// lagged, and returns it.
    pub fn read(&mut self, coordinator: usize, client: ClientId) -> (r: Result<NodeData, RegisterError>)
        requires
            old(self).wf(),
        ensures
            final(self).wf(),
            read_outcome(*old(self), *final(self), coordinator as int, client.0 as int, r),
    {
        let ghost pre = *self;
        match self.check_operation(coordinator, client) {
            Err(e) => {
                return Err(e);
            },
            Ok(()) => {},
        }
        let (best, stale) = self.collect(coordinator);
        let ghost after_collect = *self;
        if stale {
            proof {
                assert(self.responsive_mask() =~= pre.responsive_mask());
            }
            self.propagate(coordinator, best.duplicate());
        }
        let ghost before_reply = *self;
        self.network.send_to_client(&client, Message::ClientReadResponse(best.duplicate()));
        proof {
            Self::lemma_wf_same_replicas(before_reply, *self);
            assert(self.responsive_mask() =~= pre.responsive_mask());
            assert forall|j: int| 0 <= j < pre.n() implies #[trigger] self.network.node_queue(j)
                == if j != coordinator && !pre.nodes@[j].responsive() {
                if stale {
                    pre.network.node_queue(j).push(Message::CoordinatorReadRequest(NodeId(coordinator))).push(
                        Message::CoordinatorWriteRequest(NodeId(coordinator), pre.last_write@),
                    )
                } else {
                    pre.network.node_queue(j).push(Message::CoordinatorReadRequest(NodeId(coordinator)))
                }
            } else {
                pre.network.node_queue(j)
            } by {
                assert(self.network.node_queue(j) == before_reply.network.node_queue(j));
                assert(after_collect.nodes@[j].node_state == pre.nodes@[j].node_state);
                assert(after_collect.network.node_queue(j) == if j != coordinator && !pre.nodes@[j].responsive() {
                    pre.network.node_queue(j).push(Message::CoordinatorReadRequest(NodeId(coordinator)))
                } else {
                    pre.network.node_queue(j)
                });
            }
        }
        Ok(best)
    }

    /// Taking messages off client queues keeps the cluster well-formed.
    pub proof fn lemma_wf_clients_only(pre: Cluster, post: Cluster)
        requires
            pre.wf(),
            post.nodes == pre.nodes,
            post.threshold == pre.threshold,
            post.last_write == pre.last_write,
            post.network.node_inboxes == pre.network.node_inboxes,
        ensures
            post.wf(),
    {
        Self::lemma_wf_same_replicas(pre, post);
    }

    proof fn lemma_wf_same_replicas(pre: Cluster, post: Cluster)
        requires
            pre.wf(),
            post.nodes == pre.nodes,
            post.threshold == pre.threshold,
            post.last_write == pre.last_write,
            post.network.node_inboxes == pre.network.node_inboxes,
        ensures
            post.wf(),
    {
        assert forall|i: int, k: int|
            0 <= i < post.n() && 0 <= k < post.network.node_queue(i).len() implies request_no_newer_than(
            #[trigger] post.network.node_queue(i)[k],
            post.last_write@,
        ) by {
            assert(request_no_newer_than(pre.network.node_queue(i)[k], pre.last_write@));
        }
        assert(post.holders() =~= pre.holders());
    }

    /// A cluster of `node_count` fresh replicas and `client_count` clients
    /// with quorum threshold `threshold`; refused unless any two quorums of
    /// that size intersect.
    pub fn new(node_count: usize, client_count: usize, threshold: usize) -> (r: Result<
        Cluster,
        RegisterError,
    >)
        ensures
            r is Err <==> !(1 <= threshold <= node_count && 2 * threshold > node_count),
            r is Err ==> r == Err::<Cluster, RegisterError>(RegisterError::InvalidThreshold),
            r matches Ok(c) ==> {
                &&& c.wf()
                &&& c.n() == node_count
                &&& c.threshold == threshold
                &&& c.network.client_inboxes@.len() == client_count
                &&& c.register_value().version == 0
                &&& c.register_value().data@ == Seq::<char>::empty()
                &&& forall|i: int| 0 <= i < node_count ==> (#[trigger] c.nodes@[i]).responsive()
                    && c.nodes@[i].data == c.register_value()
                &&& count(c.responsive_mask()) == node_count
                &&& c.network.coordinator_id == NodeId(0)
                &&& forall|i: int|
                    0 <= i < node_count ==> (#[trigger] c.network.node_queue(i)).len() == 0
                        && c.nodes@[i].messages@.len() == 0
                &&& forall|k: int| 0 <= k < client_count ==> (#[trigger] c.network.client_queue(k)).len() == 0
            },
    {
        if threshold < 1 || threshold > node_count || threshold <= node_count - threshold {
            return Err(RegisterError::InvalidThreshold);
        }
        let empty = NodeData { data: String::new(), version: 0 };
        let mut nodes: Vec<Node> = Vec::new();
        let mut i: usize = 0;
        while i < node_count
            invariant
                i <= node_count,
                nodes@.len() == i,
                forall|j: int|
                    0 <= j < i ==> {
                        &&& (#[trigger] nodes@[j]).id == NodeId(j as usize)
                        &&& nodes@[j].quorum.acks == threshold
                        &&& nodes@[j].quorum.idle()
                        &&& nodes@[j].responsive()
                        &&& nodes@[j].data == empty
                        &&& nodes@[j].messages@.len() == 0
                    },
            decreases node_count - i,
        {
            let mut node = Node::new(NodeId(i), threshold);
            node.data = empty.duplicate();
            nodes.push(node);
            i = i + 1;
        }
        let network = Network::new(node_count, client_count);
        let c = Cluster { nodes, network, threshold, last_write: Ghost(empty) };
        proof {
            assert forall|i: int| 0 <= i < node_count implies #[trigger] c.holders()[i] by {}
            lemma_count_true(c.holders());
            lemma_count_true(c.responsive_mask());
        }
        Ok(c)
    }

    /// Stalls replica `i`: it answers nothing, and what reaches it waits in its queue.
    pub fn stall(&mut self, i: usize)
        requires
            old(self).wf(),
            i < old(self).n(),
        ensures
            final(self).wf(),
            *final(self) == (Cluster { nodes: final(self).nodes, ..*old(self) }),
            final(self).nodes@ == old(self).nodes@.update(
                i as int,
                Node { node_state: NodeState::Stalled, ..old(self).nodes@[i as int] },
            ),
            count(final(self).responsive_mask()) == count(old(self).responsive_mask()) - if old(self).nodes@[i as int].responsive() {
                1int
            } else {
                0int
            },
    {
        self.nodes[i].set_state(NodeState::Stalled);
        proof {
            assert(self.holders() =~= old(self).holders());
            if old(self).nodes@[i as int].responsive() {
                lemma_count_update(self.responsive_mask(), i as int);
                assert(self.responsive_mask().update(i as int, true) =~= old(self).responsive_mask());
            } else {
                assert(self.responsive_mask() =~= old(self).responsive_mask());
            }
        }
    }

    /// Brings replica `i` back to work; what waits in its queue stays there
    /// until delivered.
    pub fn recover(&mut self, i: usize)
        requires
            old(self).wf(),
            i < old(self).n(),
        ensures
            final(self).wf(),
            *final(self) == (Cluster { nodes: final(self).nodes, ..*old(self) }),
            final(self).nodes@ == old(self).nodes@.update(
                i as int,
                Node { node_state: NodeState::Working, ..old(self).nodes@[i as int] },
            ),
            count(final(self).responsive_mask()) == count(old(self).responsive_mask()) + if old(self).nodes@[i as int].responsive() {
                0int
            } else {
                1int
            },
    {
        self.nodes[i].set_state(NodeState::Working);
        proof {
            assert(self.holders() =~= old(self).holders());
            if !old(self).nodes@[i as int].responsive() {
                lemma_count_update(old(self).responsive_mask(), i as int);
                assert(old(self).responsive_mask().update(i as int, true) =~= self.responsive_mask());
            } else {
                assert(self.responsive_mask() =~= old(self).responsive_mask());
            }
        }
    }

    /// Draws a random fault for replica `i`: it may stall or restart.
    pub fn inject_random_fault(&mut self, i: usize)
        requires
            old(self).wf(),
            i < old(self).n(),
        ensures
            final(self).wf(),
            final(self).register_value() == old(self).register_value(),
            final(self).nodes@.len() == old(self).nodes@.len(),
            forall|j: int|
                0 <= j < old(self).n() ==> (#[trigger] final(self).nodes@[j]).data == old(self).nodes@[j].data,
            forall|j: int|
                0 <= j < old(self).n() && j != i ==> (#[trigger] final(self).nodes@[j]).node_state
                    == old(self).nodes@[j].node_state,
            exists|draw: u32|
                draw <= FAULT_DRAW_RANGE && final(self).nodes@[i as int] == #[trigger] fault_outcome(
                    old(self).nodes@[i as int],
                    draw,
                ),
    {
        self.nodes[i].generate_random_state();
        proof {
            assert(self.holders() =~= old(self).holders());
        }
    }

    /// What replica `i` answers a coordinator's read request.
    pub fn replica_answer(&self, i: usize) -> (r: Message)
        requires
            i < self.n(),
        ensures
            r == Message::CoordinatorReadResponse(self.nodes@[i as int].data),
    {
        self.nodes[i].handle_coordinator_read_request(NodeId(i))
    }

    /// Dispatcher catch-up of replica `i`: a restarting replica is back at
    /// work first; then what waits in its queue passes its listener into its
    /// inbox, and each request there is handled in order. A coordinator's
    /// write is applied unless older than the value held, a coordinator's
    /// read answered; those answers go back to their coordinators, whose
    /// listeners drop them, as no phase is waiting for them. A client's write
    /// or read is coordinated by `i` as `write` and `read` do. A stalled
    /// replica handles nothing.
    #[verifier::rlimit(60)]
    pub fn deliver_pending(&mut self, i: usize)
        requires
            old(self).wf(),
            i < old(self).n(),
        ensures
            final(self).wf(),
            final(self).threshold == old(self).threshold,
            final(self).network.client_inboxes@.len() == old(self).network.client_inboxes@.len(),
            old(self).pending_calm(i as int) ==> final(self).register_value() == old(
                self).register_value() && final(self).network.client_inboxes == old(
                self).network.client_inboxes,
            final(self).nodes@.len() == old(self).nodes@.len(),
            forall|j: int|
                0 <= j < old(self).n() && j != i ==> (#[trigger] final(self).nodes@[j]).node_state
                    == old(self).nodes@[j].node_state,
            final(self).nodes@[i as int].node_state == if old(self).nodes@[i as int].node_state
                == NodeState::Restarting {
                NodeState::Working
            } else {
                old(self).nodes@[i as int].node_state
            },
            old(self).pending_calm(i as int) ==> forall|j: int|
                0 <= j < old(self).n() && j != i ==> (#[trigger] final(self).nodes@[j]).data == old(self).nodes@[j].data,
            old(self).nodes@[i as int].node_state != NodeState::Stalled ==> final(self).network.node_queue(i as int).len() == 0 && final(self).nodes@[i as int].messages@.len()
                == 0,
            old(self).nodes@[i as int].node_state == NodeState::Stalled ==> *final(self) == *old(self),
            old(self).nodes@[i as int].node_state != NodeState::Stalled && old(self).pending_calm(i as int)
                ==> final(self).nodes@[i as int].data == apply_pending(
                old(self).nodes@[i as int].data,
                old(self).nodes@[i as int].messages@ + old(self).network.node_queue(i as int),
            ),
    {
        if self.nodes[i].node_state == NodeState::Stalled {
            return;
        }
        if self.nodes[i].node_state == NodeState::Restarting {
            self.nodes[i].set_state(NodeState::Working);
            proof {
                assert(self.holders() =~= old(self).holders());
            }
        }
        let ghost pre = *self;
        let ghost n = self.n();
        let ghost calm = old(self).pending_calm(i as int);
        let ghost target = apply_pending(
            old(self).nodes@[i as int].data,
            old(self).nodes@[i as int].messages@ + old(self).network.node_queue(i as int),
        );
        while self.network.node_inboxes[i].len() > 0
            invariant
                apply_pending(
                    self.nodes@[i as int].data,
                    self.nodes@[i as int].messages@ + self.network.node_queue(i as int),
                ) == target,
                calm ==> client_request_free(
                    self.nodes@[i as int].messages@ + self.network.node_queue(i as int),
                ),
                calm == old(self).pending_calm(i as int),
                self.wf(),
                i < n,
                self.n() == n,
                self.threshold == pre.threshold,
                self.last_write == pre.last_write,
                self.network.client_inboxes == pre.network.client_inboxes,
                forall|j: int|
                    0 <= j < n ==> (#[trigger] self.nodes@[j]).node_state == pre.nodes@[j].node_state
                        && self.nodes@[j].data == pre.nodes@[j].data,
            decreases self.network.node_queue(i as int).len(),
        {
            let ghost before = *self;
            let m = self.network.get_node_msg(&NodeId(i));
            match m {
                Some(m) => {
                    assert(request_no_newer_than(before.network.node_queue(i as int)[0], self.last_write@));
                    self.nodes[i].listen(m);
                },
                None => {},
            }
            proof {
                let msgs = before.nodes@[i as int].messages@;
                let q = before.network.node_queue(i as int);
                if accepted_by(before.nodes@[i as int].quorum, q[0]) {
                    assert(msgs.push(q[0]) + q.drop_first() =~= msgs + q);
                } else {
                    lemma_apply_skip(before.nodes@[i as int].data, msgs, q);
                    if calm {
                        lemma_free_skip(msgs, q);
                    }
                }
                assert forall|j: int, k: int|
                    0 <= j < n && 0 <= k < self.network.node_queue(j).len() implies request_no_newer_than(
                    #[trigger] self.network.node_queue(j)[k],
                    self.last_write@,
                ) by {
                    if j == i {
                        assert(self.network.node_queue(j)[k] == before.network.node_queue(j)[k + 1]);
                    } else {
                        assert(self.network.node_queue(j) == before.network.node_queue(j));
                    }
                    assert(request_no_newer_than(before.network.node_queue(j)[if j == i { k + 1 } else { k }], self.last_write@));
                }
                assert forall|j: int, k: int|
                    0 <= j < n && 0 <= k < self.nodes@[j].messages@.len() implies request_no_newer_than(
                    #[trigger] self.nodes@[j].messages@[k],
                    self.last_write@,
                ) by {
                    if k < before.nodes@[j].messages@.len() {
                        assert(request_no_newer_than(before.nodes@[j].messages@[k], self.last_write@));
                    }
                }
                assert(self.holders() =~= before.holders());
            }
        }
        proof {
            assert(self.nodes@[i as int].messages@ + self.network.node_queue(i as int)
                =~= self.nodes@[i as int].messages@);
            assert(self.nodes@[i as int].node_state == NodeState::Working);
        }
        while self.nodes[i].messages.len() > 0
            invariant
                calm ==> apply_pending(self.nodes@[i as int].data, self.nodes@[i as int].messages@) == target,
                calm ==> client_request_free(self.nodes@[i as int].messages@),
                self.wf(),
                i < n,
                self.n() == n,
                self.threshold == pre.threshold,
                calm ==> self.last_write == pre.last_write,
                self.network.client_inboxes@.len() == pre.network.client_inboxes@.len(),
                calm ==> self.network.client_inboxes == pre.network.client_inboxes,
                self.network.node_queue(i as int).len() == 0,
                forall|j: int|
                    0 <= j < n ==> (#[trigger] self.nodes@[j]).node_state == pre.nodes@[j].node_state,
                calm ==> forall|j: int| 0 <= j < n && j != i ==> (#[trigger] self.nodes@[j]).data == pre.nodes@[j].data,
            decreases self.nodes@[i as int].messages@.len(),
        {
            let ghost before = *self;
            proof {
                let msgs = before.nodes@[i as int].messages@;
                assert(apply_pending(before.nodes@[i as int].data, msgs) == apply_pending(
                    match msgs[0] {
                        Message::CoordinatorWriteRequest(_, w) => if w.version >= before.nodes@[i as int].data.version {
                            w
                        } else {
                            before.nodes@[i as int].data
                        },
                        _ => before.nodes@[i as int].data,
                    },
                    msgs.drop_first(),
                ));
            }
            let m = self.nodes[i].take_first_msg();
            proof {
                assert(self.holders() =~= before.holders());
                assert forall|j: int, k: int|
                    0 <= j < n && 0 <= k < self.nodes@[j].messages@.len() implies request_no_newer_than(
                    #[trigger] self.nodes@[j].messages@[k],
                    self.last_write@,
                ) by {
                    if j == i {
                        assert(self.nodes@[j].messages@[k] == before.nodes@[j].messages@[k + 1]);
                        assert(request_no_newer_than(before.nodes@[j].messages@[k + 1], self.last_write@));
                    } else {
                        assert(request_no_newer_than(before.nodes@[j].messages@[k], self.last_write@));
                    }
                }
                assert forall|j: int, k: int|
                    0 <= j < n && 0 <= k < self.network.node_queue(j).len() implies request_no_newer_than(
                    #[trigger] self.network.node_queue(j)[k],
                    self.last_write@,
                ) by {
                    assert(request_no_newer_than(before.network.node_queue(j)[k], self.last_write@));
                }
                assert(self.wf());
            }
            proof {
                assert(request_no_newer_than(before.nodes@[i as int].messages@[0], self.last_write@));
            }
            match m {
                Some(Message::CoordinatorReadRequest(from)) => {
                    let answer = self.nodes[i].handle_coordinator_read_request(from);
                    if from.0 < self.nodes.len() {
                        let ghost mid = self.nodes@;
                        assert(before.nodes@[from.0 as int].quorum.idle());
                        assert(mid[from.0 as int].quorum == before.nodes@[from.0 as int].quorum);
                        self.nodes[from.0].listen(answer);
                        assert(self.nodes@ =~= mid);
                    }
                },
                Some(Message::CoordinatorWriteRequest(from, d)) => {
                    let ack = self.nodes[i].handle_coordinator_write_request(from, d);
                    if from.0 < self.nodes.len() {
                        let ghost mid = self.nodes@;
                        assert(before.nodes@[from.0 as int].quorum.idle());
                        assert(mid[from.0 as int].quorum == before.nodes@[from.0 as int].quorum);
                        self.nodes[from.0].listen(ack);
                        assert(self.nodes@ =~= mid);
                    }
                },
                Some(Message::ClientWriteRequest(client, value)) => {
                    let _ = self.write(i, client, value);
                },
                Some(Message::ClientReadRequest(client)) => {
                    let _ = self.read(i, client);
                },
                _ => {},
            }
            proof {
                if calm {
                    let msgs = before.nodes@[i as int].messages@;
                    assert(msgs.drop_first().len() == msgs.len() - 1);
                    assert forall|k: int| 0 <= k < msgs.len() - 1 implies !(#[trigger] msgs.drop_first()[k] is ClientWriteRequest)
                        && !(msgs.drop_first()[k] is ClientReadRequest) by {
                        assert(msgs.drop_first()[k] == msgs[k + 1]);
                    }
                }
            }
            proof {
                let head = before.nodes@[i as int].messages@[0];
                if !(head is ClientWriteRequest) && !(head is ClientReadRequest) {
                    assert forall|j: int, k: int|
                        0 <= j < n && 0 <= k < self.network.node_queue(j).len() implies request_no_newer_than(
                        #[trigger] self.network.node_queue(j)[k],
                        self.last_write@,
                    ) by {
                        assert(request_no_newer_than(before.network.node_queue(j)[k], self.last_write@));
                    }
                    assert forall|j: int, k: int|
                        0 <= j < n && 0 <= k < self.nodes@[j].messages@.len() implies request_no_newer_than(
                        #[trigger] self.nodes@[j].messages@[k],
                        self.last_write@,
                    ) by {
                        if j == i {
                            assert(self.nodes@[j].messages@[k] == before.nodes@[j].messages@[k + 1]);
                            assert(request_no_newer_than(before.nodes@[j].messages@[k + 1], self.last_write@));
                        } else {
                            assert(request_no_newer_than(before.nodes@[j].messages@[k], self.last_write@));
                        }
                    }
                    assert(no_newer_than(before.nodes@[i as int].data, self.last_write@));
                    assert forall|j: int| 0 <= j < n && #[trigger] before.holders()[j] implies self.holders()[j] by {}
                    lemma_count_mono(before.holders(), self.holders());
                }
            }
        }
    }

    pub fn count_responsive(&self) -> (r: usize)
        ensures
            r == count(self.responsive_mask()),
    {
        let ghost mask = self.responsive_mask();
        let mut cnt: usize = 0;
        let mut i: usize = 0;
        while i < self.nodes.len()
            invariant
                i <= self.nodes@.len(),
                mask == self.responsive_mask(),
                cnt == count(mask.take(i as int)),
                cnt <= i,
            decreases self.nodes@.len() - i,
        {
            proof {
                lemma_count_prefix(mask, i as int);
            }
            if self.nodes[i].node_state == NodeState::Working {
                cnt = cnt + 1;
            }
            i = i + 1;
        }
        assert(mask.take(i as int) =~= mask);
        cnt
    }
}

} // verus!
