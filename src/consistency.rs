use vstd::prelude::*;

use crate::cluster::{count, read_outcome, write_outcome, Cluster, RegisterError};
use crate::node::NodeData;

verus! {

/// A read completed after a write returns exactly what that write stored,
/// at the version the write was given, whichever replicas coordinated them.
pub proof fn read_returns_last_write(
    c0: Cluster,
    c1: Cluster,
    c2: Cluster,
    writer: int,
    write_client: int,
    value: String,
    w: Result<u32, RegisterError>,
    reader: int,
    read_client: int,
    r: Result<NodeData, RegisterError>,
)
    requires
        c0.wf(),
        write_outcome(c0, c1, writer, write_client, value, w),
        w is Ok,
        read_outcome(c1, c2, reader, read_client, r),
        r is Ok,
    ensures
        r == Ok::<NodeData, RegisterError>(NodeData { data: value, version: w->Ok_0 }),
{
}

/// After a completed write, a read at any working replica that still sees a
/// quorum of working replicas completes, and returns what the write stored.
pub proof fn read_after_write_completes_with_last_write(
    c0: Cluster,
    c1: Cluster,
    c2: Cluster,
    writer: int,
    write_client: int,
    value: String,
    w: Result<u32, RegisterError>,
    reader: int,
    read_client: int,
    r: Result<NodeData, RegisterError>,
)
    requires
        c0.wf(),
        write_outcome(c0, c1, writer, write_client, value, w),
        w is Ok,
        read_outcome(c1, c2, reader, read_client, r),
        0 <= reader < c0.n(),
        0 <= read_client < c0.network.client_inboxes@.len(),
        c0.quorum_reachable(reader),
    ensures
        r == Ok::<NodeData, RegisterError>(NodeData { data: value, version: w->Ok_0 }),
{
    assert(c1.responsive_mask() == c0.responsive_mask());
    assert(c1.nodes@[reader].responsive() == c0.responsive_mask()[reader]);
}

/// Two writes completed one after the other get strictly increasing
/// versions, whichever replicas coordinated them.
pub proof fn successive_writes_increase_version(
    c0: Cluster,
    c1: Cluster,
    c2: Cluster,
    first: int,
    first_client: int,
    first_value: String,
    w1: Result<u32, RegisterError>,
    second: int,
    second_client: int,
    second_value: String,
    w2: Result<u32, RegisterError>,
)
    requires
        c0.wf(),
        write_outcome(c0, c1, first, first_client, first_value, w1),
        write_outcome(c1, c2, second, second_client, second_value, w2),
        w1 is Ok,
        w2 is Ok,
    ensures
        w1->Ok_0 < w2->Ok_0,
{
}

/// Writing the same value twice makes two writes with two distinct,
/// increasing versions: writes are not merged by content.
pub proof fn same_value_written_twice(
    c0: Cluster,
    c1: Cluster,
    c2: Cluster,
    coordinator: int,
    client: int,
    value: String,
    w1: Result<u32, RegisterError>,
    w2: Result<u32, RegisterError>,
)
    requires
        c0.wf(),
        write_outcome(c0, c1, coordinator, client, value, w1),
        write_outcome(c1, c2, coordinator, client, value, w2),
        w1 is Ok,
        w2 is Ok,
    ensures
        w1->Ok_0 != w2->Ok_0,
        w1->Ok_0 < w2->Ok_0,
        c2.register_value().data == value,
{
}

/// A read that tallied a replica behind the value it returns leaves that
/// replica holding the returned value, so its next answer carries it.
pub proof fn read_repairs_stale_replica(
    c0: Cluster,
    c1: Cluster,
    coordinator: int,
    client: int,
    r: Result<NodeData, RegisterError>,
    j: int,
)
    requires
        c0.wf(),
        read_outcome(c0, c1, coordinator, client, r),
        r is Ok,
        0 <= j < c0.n(),
        c0.read_members(coordinator)[j],
        c0.nodes@[j].data.version < r->Ok_0.version,
    ensures
        c1.nodes@[j].data == r->Ok_0,
{
    assert(c0.repair_needed(coordinator));
    assert(c0.responsive_mask()[j]);
}

/// With at most `n - threshold` replicas stalled, a write at any working
/// replica completes (short of running out of versions).
pub proof fn write_completes_with_live_quorum(
    c0: Cluster,
    c1: Cluster,
    coordinator: int,
    client: int,
    value: String,
    w: Result<u32, RegisterError>,
)
    requires
        c0.wf(),
        write_outcome(c0, c1, coordinator, client, value, w),
        0 <= coordinator < c0.n(),
        0 <= client < c0.network.client_inboxes@.len(),
        c0.nodes@[coordinator].responsive(),
        c0.n() - count(c0.responsive_mask()) <= c0.n() - c0.threshold,
        c0.register_value().version < u32::MAX,
    ensures
        w is Ok,
{
}

/// With at most `n - threshold` replicas stalled, a read at any working
/// replica completes.
pub proof fn read_completes_with_live_quorum(
    c0: Cluster,
    c1: Cluster,
    coordinator: int,
    client: int,
    r: Result<NodeData, RegisterError>,
)
    requires
        c0.wf(),
        read_outcome(c0, c1, coordinator, client, r),
        0 <= coordinator < c0.n(),
        0 <= client < c0.network.client_inboxes@.len(),
        c0.nodes@[coordinator].responsive(),
        c0.n() - count(c0.responsive_mask()) <= c0.n() - c0.threshold,
    ensures
        r is Ok,
{
}

} // verus!
