//! Contiguous advancement of replication checkpoints.

use vstd::prelude::*;

use crate::event::{event_views, Event, EventModel};
use crate::node::NodeId;
use crate::storage::{value_or_zero, ReplicationCheckpoint};

verus! {

/// Whether `events` hold an event of `node` with sequence `k`.
pub open spec fn has_seq(events: Seq<EventModel>, node: NodeId, k: int) -> bool {
    exists|i: int| 0 <= i < events.len() && #[trigger] events[i].id.node_id == node && events[i].id.sequence == k
}

/// The furthest sequence reachable from `cur` through sequences of `node`
/// that are all present in `events`, one after another.
pub open spec fn contiguous_end(events: Seq<EventModel>, node: NodeId, cur: u64) -> u64
    decreases u64::MAX - cur,
{
    if cur < u64::MAX && has_seq(events, node, cur + 1) {
        contiguous_end(events, node, (cur + 1) as u64)
    } else {
        cur
    }
}

/// The checkpoint map after advancing `node` over `events`.
pub open spec fn checkpoint_after(m: Map<u64, u64>, node: NodeId, events: Seq<EventModel>) -> Map<u64, u64> {
    let cur = value_or_zero(m, node.0);
    let end = contiguous_end(events, node, cur);
    if end > cur {
        m.insert(node.0, end)
    } else {
        m
    }
}

/// The end is reached only through present sequences, and stops right
/// before the first missing one; from the end there is nowhere further.
pub proof fn lemma_contiguous_end(events: Seq<EventModel>, node: NodeId, cur: u64)
    ensures
        cur <= contiguous_end(events, node, cur),
        forall|k: int| cur < k <= contiguous_end(events, node, cur) ==> has_seq(events, node, k),
        contiguous_end(events, node, cur) < u64::MAX ==> !has_seq(
            events,
            node,
            contiguous_end(events, node, cur) + 1,
        ),
        contiguous_end(events, node, contiguous_end(events, node, cur)) == contiguous_end(events, node, cur),
    decreases u64::MAX - cur,
{
    if cur < u64::MAX && has_seq(events, node, cur + 1) {
        lemma_contiguous_end(events, node, (cur + 1) as u64);
    }
}

/// Advancing a checkpoint never passes the first sequence missing from the
/// events, and is idempotent: a second advance over the same events leaves
/// the checkpoint as the first left it.
pub proof fn lemma_update_contiguous_stops_at_gap(m: Map<u64, u64>, node: NodeId, events: Seq<EventModel>)
    ensures
        ({
            let cur = value_or_zero(m, node.0);
            let new = value_or_zero(checkpoint_after(m, node, events), node.0);
            &&& cur <= new
            &&& forall|k: int| cur < k <= new ==> has_seq(events, node, k)
            &&& new < u64::MAX ==> !has_seq(events, node, new + 1)
        }),
        checkpoint_after(checkpoint_after(m, node, events), node, events) == checkpoint_after(m, node, events),
{
    let cur = value_or_zero(m, node.0);
    lemma_contiguous_end(events, node, cur);
    let end = contiguous_end(events, node, cur);
    let m2 = checkpoint_after(m, node, events);
    assert(value_or_zero(m2, node.0) == end);
    lemma_contiguous_end(events, node, end);
}

/// Advancing over two sequences that hold the same events gives the same
/// checkpoint.
pub proof fn lemma_checkpoint_after_same_events(
    m: Map<u64, u64>,
    node: NodeId,
    a: Seq<EventModel>,
    b: Seq<EventModel>,
)
    requires
        forall|x: EventModel| #[trigger] a.contains(x) <==> b.contains(x),
    ensures
        checkpoint_after(m, node, a) == checkpoint_after(m, node, b),
{
    assert forall|k: int| #[trigger] has_seq(a, node, k) == has_seq(b, node, k) by {
        if has_seq(a, node, k) {
            let i = choose|i: int| 0 <= i < a.len() && #[trigger] a[i].id.node_id == node && a[i].id.sequence == k;
            assert(a.contains(a[i]));
            assert(b.contains(a[i]));
            let j = choose|j: int| 0 <= j < b.len() && b[j] == a[i];
            assert(b[j].id.node_id == node);
        }
        if has_seq(b, node, k) {
            let i = choose|i: int| 0 <= i < b.len() && #[trigger] b[i].id.node_id == node && b[i].id.sequence == k;
            assert(b.contains(b[i]));
            assert(a.contains(b[i]));
            let j = choose|j: int| 0 <= j < a.len() && a[j] == b[i];
            assert(a[j].id.node_id == node);
        }
    }
    lemma_contiguous_end_same_seqs(a, b, node, value_or_zero(m, node.0));
}

proof fn lemma_contiguous_end_same_seqs(a: Seq<EventModel>, b: Seq<EventModel>, node: NodeId, cur: u64)
    requires
        forall|k: int| #[trigger] has_seq(a, node, k) == has_seq(b, node, k),
    ensures
        contiguous_end(a, node, cur) == contiguous_end(b, node, cur),
    decreases u64::MAX - cur,
{
    if cur < u64::MAX && has_seq(a, node, cur + 1) {
        lemma_contiguous_end_same_seqs(a, b, node, (cur + 1) as u64);
    }
}

/// Maintains replication checkpoints.
pub struct CheckpointManager;

/// Whether `events` hold an event of `node` with sequence `k`.
fn contains_seq(events: &[Event], node: NodeId, k: u64) -> (r: bool)
    ensures
        r == has_seq(event_views(events@), node, k as int),
{
    let ghost s = event_views(events@);
    let mut i: usize = 0;
    while i < events.len()
        invariant
            s == event_views(events@),
            i <= events@.len(),
            forall|j: int| 0 <= j < i ==> !(#[trigger] s[j].id.node_id == node && s[j].id.sequence == k),
        decreases events.len() - i,
    {
        if events[i].id.node_id.0 == node.0 && events[i].id.sequence == k {
            assert(s[i as int].id == events@[i as int].id);
            return true;
        }
        i = i + 1;
    }
    false
}

impl CheckpointManager {
    /// Advance the checkpoint of `node_id` over `events`, only through
    /// sequences that follow each other without a gap: with the checkpoint at
    /// 0 and sequences `[1, 2, 4, 5]` it moves to 2, not 5. Events of other
    /// nodes, and sequences at or below the checkpoint, are ignored.
    pub fn update_contiguous(checkpoint: &mut ReplicationCheckpoint, node_id: NodeId, events: &[Event])
        ensures
            final(checkpoint)@ == checkpoint_after(old(checkpoint)@, node_id, event_views(events@)),
    {
        let ghost s = event_views(events@);
        if events.len() == 0 {
            proof {
                let cur = value_or_zero(old(checkpoint)@, node_id.0);
                assert(!has_seq(s, node_id, cur + 1));
            }
            return;
        }
        let current = checkpoint.last_seq_for(node_id);
        let mut new_seq = current;
        loop
            invariant
                s == event_views(events@),
                checkpoint@ == old(checkpoint)@,
                current == value_or_zero(checkpoint@, node_id.0),
                current <= new_seq,
                contiguous_end(s, node_id, new_seq) == contiguous_end(s, node_id, current),
            ensures
                checkpoint@ == old(checkpoint)@,
                current <= new_seq,
                contiguous_end(s, node_id, new_seq) == contiguous_end(s, node_id, current),
                new_seq == u64::MAX || !has_seq(s, node_id, new_seq + 1),
            decreases u64::MAX - new_seq,
        {
            if new_seq == u64::MAX || !contains_seq(events, node_id, new_seq + 1) {
                break;
            }
            new_seq = new_seq + 1;
        }
        assert(contiguous_end(s, node_id, new_seq) == new_seq);
        if new_seq > current {
            checkpoint.update(node_id, new_seq);
        }
    }

    /// The next sequence to ask `node_id` for.
    pub fn next_expected_seq(checkpoint: &ReplicationCheckpoint, node_id: NodeId) -> (r: u64)
        requires
            value_or_zero(checkpoint@, node_id.0) < u64::MAX,
        ensures
            r == value_or_zero(checkpoint@, node_id.0) + 1,
    {
        checkpoint.last_seq_for(node_id) + 1
    }
}

} // verus!
