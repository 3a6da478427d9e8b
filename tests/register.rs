use atomic_register::atomic_register_client::{AtomicRegisterClinent, ClientId};
use atomic_register::cluster::{Cluster, RegisterError};
use atomic_register::network::Network;
use atomic_register::node::{newest_of, next_version, Message, Node, NodeData, NodeId, NodeState};
use atomic_register::quorum::{Quorum, QuorumState};

fn data(s: &str, v: u32) -> NodeData {
    NodeData::new(s.to_string(), v)
}

fn cluster(n: usize, clients: usize, t: usize) -> Cluster {
    match Cluster::new(n, clients, t) {
        Ok(c) => c,
        Err(e) => panic!("cluster refused: {:?}", e),
    }
}

#[test]
fn two_writes_then_reads_at_node_zero() {
    let mut c = cluster(3, 1, 2);
    let client = ClientId(0);
    assert_eq!(c.write(0, client, "Data 1".to_string()), Ok(1));
    assert_eq!(c.read(0, client), Ok(data("Data 1", 1)));
    assert_eq!(c.write(0, client, "Data 2".to_string()), Ok(2));
    assert_eq!(c.read(0, client), Ok(data("Data 2", 2)));
}

#[test]
fn stalled_node_catches_up_through_read_repair() {
    let mut c = cluster(3, 1, 2);
    let client = ClientId(0);
    c.stall(2);
    assert_eq!(c.write(0, client, "Data 1".to_string()), Ok(1));
    assert_eq!(c.nodes[2].data.version, 0);
    c.recover(2);
    assert_eq!(c.read(2, client), Ok(data("Data 1", 1)));
    assert_eq!(c.nodes[2].data, data("Data 1", 1));
    assert_eq!(c.replica_answer(2), Message::CoordinatorReadResponse(data("Data 1", 1)));
}

#[test]
fn read_repair_reaches_every_working_replica() {
    let mut c = cluster(5, 1, 3);
    let client = ClientId(0);
    c.stall(3);
    c.stall(4);
    assert_eq!(c.write(0, client, "x".to_string()), Ok(1));
    c.recover(3);
    c.recover(4);
    // node 3 tallies itself (version 0) and nodes 0 and 1 (version 1)
    assert_eq!(c.read(3, client), Ok(data("x", 1)));
    for i in 0..5 {
        assert_eq!(c.nodes[i].data, data("x", 1));
    }
}

#[test]
fn no_repair_when_tallied_replicas_agree() {
    let mut c = cluster(5, 1, 3);
    let client = ClientId(0);
    c.stall(4);
    assert_eq!(c.write(1, client, "y".to_string()), Ok(1));
    c.recover(4);
    assert_eq!(c.read(0, client), Ok(data("y", 1)));
    assert_eq!(c.nodes[4].data.version, 0);
}

#[test]
fn versions_increase_across_coordinators() {
    let mut c = cluster(3, 2, 2);
    assert_eq!(c.write(0, ClientId(0), "a".to_string()), Ok(1));
    assert_eq!(c.write(1, ClientId(1), "b".to_string()), Ok(2));
    assert_eq!(c.write(2, ClientId(0), "c".to_string()), Ok(3));
    assert_eq!(c.read(1, ClientId(1)), Ok(data("c", 3)));
}

#[test]
fn same_value_twice_gets_two_versions() {
    let mut c = cluster(3, 1, 2);
    let v1 = c.write(0, ClientId(0), "same".to_string());
    let v2 = c.write(0, ClientId(0), "same".to_string());
    assert_eq!(v1, Ok(1));
    assert_eq!(v2, Ok(2));
}

#[test]
fn read_returns_most_recent_of_many_writes() {
    let mut c = cluster(4, 1, 3);
    for (k, s) in ["one", "two", "three", "four"].iter().enumerate() {
        assert_eq!(c.write(k % 4, ClientId(0), s.to_string()), Ok(k as u32 + 1));
    }
    for k in 0..4 {
        assert_eq!(c.read(k, ClientId(0)), Ok(data("four", 4)));
    }
}

#[test]
fn minority_stalled_still_completes() {
    let mut c = cluster(5, 1, 3);
    c.stall(1);
    c.stall(3);
    assert_eq!(c.write(4, ClientId(0), "live".to_string()), Ok(1));
    assert_eq!(c.read(2, ClientId(0)), Ok(data("live", 1)));
    assert_eq!(c.nodes[1].data.version, 0);
    assert_eq!(c.nodes[3].data.version, 0);
}

#[test]
fn too_many_stalled_times_out() {
    let mut c = cluster(5, 1, 3);
    c.stall(1);
    c.stall(2);
    c.stall(3);
    assert_eq!(c.write(0, ClientId(0), "z".to_string()), Err(RegisterError::QuorumTimeout));
    assert_eq!(c.read(0, ClientId(0)), Err(RegisterError::QuorumTimeout));
    assert_eq!(c.nodes[0].data.version, 0);
}

#[test]
fn stalled_coordinator_times_out() {
    let mut c = cluster(3, 1, 2);
    c.stall(0);
    assert_eq!(c.write(0, ClientId(0), "z".to_string()), Err(RegisterError::QuorumTimeout));
    assert_eq!(c.read(0, ClientId(0)), Err(RegisterError::QuorumTimeout));
}

#[test]
fn unknown_node_and_client() {
    let mut c = cluster(3, 1, 2);
    assert_eq!(c.write(3, ClientId(0), "z".to_string()), Err(RegisterError::UnknownNode));
    assert_eq!(c.read(7, ClientId(0)), Err(RegisterError::UnknownNode));
    assert_eq!(c.write(0, ClientId(1), "z".to_string()), Err(RegisterError::UnknownClient));
    assert_eq!(c.read(0, ClientId(5)), Err(RegisterError::UnknownClient));
}

#[test]
fn thresholds_without_intersection_are_refused() {
    assert!(matches!(Cluster::new(4, 1, 2), Err(RegisterError::InvalidThreshold)));
    assert!(matches!(Cluster::new(3, 1, 0), Err(RegisterError::InvalidThreshold)));
    assert!(matches!(Cluster::new(3, 1, 4), Err(RegisterError::InvalidThreshold)));
    assert!(matches!(Cluster::new(0, 1, 0), Err(RegisterError::InvalidThreshold)));
    assert!(Cluster::new(4, 1, 3).is_ok());
    assert!(Cluster::new(1, 0, 1).is_ok());
}

#[test]
fn version_overflow_is_reported() {
    let mut c = cluster(3, 1, 2);
    for i in 0..3 {
        c.nodes[i].data = data("top", u32::MAX);
    }
    assert_eq!(c.write(0, ClientId(0), "z".to_string()), Err(RegisterError::VersionOverflow));
    assert_eq!(c.nodes[0].data, data("top", u32::MAX));
}

#[test]
fn clients_consume_their_replies() {
    let mut c = cluster(3, 2, 2);
    let client1 = AtomicRegisterClinent::new(ClientId(0));
    let client2 = AtomicRegisterClinent::new(ClientId(1));
    assert_eq!(client1.read(&mut c), Ok(data("", 0)));
    assert_eq!(client1.receive(&mut c), None);
    assert_eq!(client1.write(&mut c, "Data 1".to_string()), Ok(1));
    assert_eq!(client1.receive(&mut c), None);
    c.network.send_to_client(&ClientId(1), Message::ClientReadResponse(data("old", 0)));
    assert_eq!(client2.write(&mut c, "Data 2".to_string()), Ok(2));
    assert_eq!(client2.receive(&mut c), None);
    c.network.send_to_client(&ClientId(1), Message::WriteAck(NodeId(2)));
    assert_eq!(client2.read(&mut c), Ok(data("Data 2", 2)));
    assert_eq!(client2.receive(&mut c), None);
}

#[test]
fn stalled_node_buffers_and_delivers_later() {
    let mut c = cluster(3, 1, 2);
    c.stall(2);
    assert_eq!(c.write(0, ClientId(0), "late".to_string()), Ok(1));
    assert_eq!(c.network.node_inboxes[2].len(), 2);
    c.deliver_pending(2);
    assert_eq!(c.network.node_inboxes[2].len(), 2);
    assert_eq!(c.nodes[2].data.version, 0);
    c.recover(2);
    c.deliver_pending(2);
    assert_eq!(c.network.node_inboxes[2].len(), 0);
    assert_eq!(c.nodes[2].messages.len(), 0);
    assert_eq!(c.nodes[2].data, data("late", 1));
    assert_eq!(c.nodes[0].messages.len(), 0);
}

#[test]
fn random_fault_keeps_values() {
    let mut c = cluster(3, 1, 2);
    assert_eq!(c.write(0, ClientId(0), "v".to_string()), Ok(1));
    for _ in 0..10 {
        c.inject_random_fault(1);
    }
    assert_eq!(c.nodes[1].data, data("v", 1));
    c.stall(1);
    c.inject_random_fault(1);
    assert_eq!(c.nodes[1].node_state, NodeState::Stalled);
}

#[test]
fn fault_draw_thresholds() {
    let mut n = Node::new(NodeId(0), 2);
    n.apply_fault_draw(5);
    assert_eq!(n.node_state, NodeState::Stalled);
    let mut n = Node::new(NodeId(0), 2);
    n.apply_fault_draw(6);
    assert_eq!(n.node_state, NodeState::Restarting);
    let mut n = Node::new(NodeId(0), 2);
    n.apply_fault_draw(20);
    assert_eq!(n.node_state, NodeState::Restarting);
    let mut n = Node::new(NodeId(0), 2);
    n.apply_fault_draw(21);
    assert_eq!(n.node_state, NodeState::Working);
    n.node_state = NodeState::Stalled;
    n.apply_fault_draw(10);
    assert_eq!(n.node_state, NodeState::Restarting);
    n.apply_fault_draw(0);
    assert_eq!(n.node_state, NodeState::Stalled);
    n.apply_fault_draw(100);
    assert_eq!(n.node_state, NodeState::Stalled);
}

#[test]
fn quorum_tally_uses_exact_threshold() {
    let mut q = Quorum::new(2);
    assert!(q.is_waiting_request());
    assert!(!q.is_read_coordinator());
    assert!(!q.done_read_quorum());
    q.begin_read();
    assert!(q.is_read_coordinator());
    assert_eq!(q.quorum_state, QuorumState::WaitingForReadResponse(0));
    q.record_read_response(data("a", 1));
    assert!(!q.done_read_quorum());
    q.record_read_response(data("b", 2));
    assert!(q.done_read_quorum());
    assert_eq!(q.node_datas.len(), 2);
    q.increase_read_ack_count();
    assert!(!q.done_read_quorum());
    q.go_to_waiting_requst();
    assert!(q.is_waiting_request());
    assert_eq!(q.node_datas.len(), 0);
}

#[test]
fn write_acks_are_deduplicated() {
    let mut q = Quorum::new(2);
    q.begin_write();
    assert!(q.is_write_coordinator());
    assert!(q.record_write_ack(NodeId(1)));
    assert!(!q.record_write_ack(NodeId(1)));
    assert!(!q.done_write_quorum());
    assert!(q.record_write_ack(NodeId(2)));
    assert!(q.done_write_quorum());
    assert_eq!(q.node_ids, vec![NodeId(1), NodeId(2)]);
    q.increase_write_ack_count();
    assert_eq!(q.quorum_state, QuorumState::WaitingForWriteAck(3));
    assert!(!q.done_write_quorum());
}

#[test]
fn listener_filters_responses_by_phase() {
    let mut n = Node::new(NodeId(1), 2);
    n.listen(Message::CoordinatorReadResponse(data("a", 1)));
    n.listen(Message::WriteAck(NodeId(0)));
    n.listen(Message::ClientReadResponse(data("a", 1)));
    assert_eq!(n.messages.len(), 0);
    n.listen(Message::CoordinatorReadRequest(NodeId(0)));
    n.listen(Message::ClientReadRequest(ClientId(0)));
    assert_eq!(n.messages.len(), 2);
    n.quorum.begin_read();
    n.listen(Message::CoordinatorReadResponse(data("a", 1)));
    n.listen(Message::WriteAck(NodeId(0)));
    assert_eq!(n.messages.len(), 3);
    n.quorum.go_to_waiting_requst();
    n.quorum.begin_write();
    n.listen(Message::WriteAck(NodeId(0)));
    assert_eq!(n.messages.len(), 4);
    assert_eq!(n.take_first_msg(), Some(Message::CoordinatorReadRequest(NodeId(0))));
    n.remove_first_message();
    assert_eq!(n.messages.len(), 2);
    n.remove_first_message();
    n.remove_first_message();
    n.remove_first_message();
    assert_eq!(n.take_first_msg(), None);
}

#[test]
fn replica_handlers() {
    let mut n = Node::new(NodeId(2), 2);
    assert_eq!(n.data, data("", 0));
    assert_eq!(
        n.handle_coordinator_write_request(NodeId(0), data("new", 3)),
        Message::WriteAck(NodeId(2))
    );
    assert_eq!(n.data, data("new", 3));
    assert_eq!(
        n.handle_coordinator_write_request(NodeId(0), data("old", 2)),
        Message::WriteAck(NodeId(2))
    );
    assert_eq!(n.data, data("new", 3));
    assert_eq!(
        n.handle_coordinator_read_request(NodeId(0)),
        Message::CoordinatorReadResponse(data("new", 3))
    );
}

#[test]
fn newest_prefers_first_of_highest() {
    let s = vec![data("own", 4), data("other", 4), data("low", 1)];
    assert_eq!(newest_of(&s), (data("own", 4), true));
    let s = vec![data("a", 1), data("b", 7), data("c", 7)];
    assert_eq!(newest_of(&s), (data("b", 7), true));
    let s = vec![data("a", 2), data("b", 2)];
    assert_eq!(newest_of(&s), (data("a", 2), false));
}

#[test]
fn next_version_after_highest() {
    assert_eq!(next_version(&vec![data("a", 0)]), Some(1));
    assert_eq!(next_version(&vec![data("a", 3), data("b", 9), data("c", 2)]), Some(10));
    assert_eq!(next_version(&vec![data("a", u32::MAX)]), None);
}

#[test]
fn network_queues() {
    let mut net = Network::new(3, 2);
    net.send(Message::ClientReadRequest(ClientId(1)));
    net.send_to_nodes(Message::CoordinatorReadRequest(NodeId(1)), &NodeId(1));
    assert_eq!(net.get_node_msg(&NodeId(0)), Some(Message::ClientReadRequest(ClientId(1))));
    assert_eq!(net.get_node_msg(&NodeId(0)), Some(Message::CoordinatorReadRequest(NodeId(1))));
    assert_eq!(net.get_node_msg(&NodeId(0)), None);
    assert_eq!(net.get_node_msg(&NodeId(1)), None);
    assert_eq!(net.get_node_msg(&NodeId(2)), Some(Message::CoordinatorReadRequest(NodeId(1))));
    net.send_to_node(&NodeId(1), Message::WriteAck(NodeId(2)));
    assert_eq!(net.get_node_msg(&NodeId(1)), Some(Message::WriteAck(NodeId(2))));
    net.send_to_client(&ClientId(1), Message::WriteAck(NodeId(0)));
    assert_eq!(net.get(&ClientId(0)), None);
    assert_eq!(net.get(&ClientId(1)), Some(Message::WriteAck(NodeId(0))));
    assert_eq!(net.coordinator_id, NodeId(0));
}

#[test]
fn message_duplicate_is_equal() {
    let m = Message::CoordinatorWriteRequest(NodeId(1), data("d", 9));
    assert_eq!(m.duplicate(), m);
    let m = Message::ClientWriteRequest(ClientId(3), "w".to_string());
    assert_eq!(m.duplicate(), m);
}

#[test]
fn restarting_node_returns_to_work_on_delivery() {
    let mut c = cluster(3, 1, 2);
    c.nodes[1].node_state = NodeState::Restarting;
    assert_eq!(c.write(0, ClientId(0), "r".to_string()), Ok(1));
    assert_eq!(c.nodes[1].data.version, 0);
    c.deliver_pending(1);
    assert_eq!(c.nodes[1].node_state, NodeState::Working);
    assert_eq!(c.nodes[1].data, data("r", 1));
}

#[test]
fn first_message_is_peeked_not_taken() {
    let mut n = Node::new(NodeId(0), 2);
    assert_eq!(n.get_first_msg(), None);
    n.listen(Message::CoordinatorReadRequest(NodeId(2)));
    assert_eq!(n.get_first_msg(), Some(Message::CoordinatorReadRequest(NodeId(2))));
    assert_eq!(n.messages.len(), 1);
}

#[test]
fn client_requests_through_the_transport_are_coordinated() {
    let mut c = cluster(3, 1, 2);
    c.network.send(Message::ClientWriteRequest(ClientId(0), "via queue".to_string()));
    c.network.send(Message::ClientReadRequest(ClientId(0)));
    c.deliver_pending(0);
    assert_eq!(c.network.get(&ClientId(0)), Some(Message::WriteAck(NodeId(0))));
    assert_eq!(
        c.network.get(&ClientId(0)),
        Some(Message::ClientReadResponse(data("via queue", 1)))
    );
    assert_eq!(c.nodes[1].data, data("via queue", 1));
}
