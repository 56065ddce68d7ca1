//! In-memory stores: the append-only event log, replication checkpoints and
//! results of local appends.

use std::collections::HashMap;
use vstd::prelude::*;

use crate::event::{EntityId, Event, EventId, EventModel, Payload, event_views};
use crate::hlc::HlcTimestamp;
use crate::node::NodeId;

verus! {

broadcast use vstd::std_specs::hash::group_hash_axioms;

/// Failures of a store.
#[derive(Clone, Debug, PartialEq)]
pub enum StorageError {
    EventNotFound(u64, u64),
    EntityNotFound(EntityId),
    DuplicateEvent(u64, u64),
    /// The node's sequence numbers are used up; carries the node.
    SequenceExhausted(u64),
    Database(String),
}

/// The value stored for `k`, zero when there is none.
pub open spec fn value_or_zero(m: Map<u64, u64>, k: u64) -> u64 {
    if m.contains_key(k) {
        m[k]
    } else {
        0
    }
}

/// Replication progress: for each node, the last sequence number up to which
/// every event of that node is known to be stored locally.
#[derive(Clone, Debug)]
pub struct ReplicationCheckpoint {
    /// Node id to last contiguous sequence; a missing node means zero.
    pub node_sequences: HashMap<u64, u64>,
}

impl View for ReplicationCheckpoint {
    type V = Map<u64, u64>;

    open spec fn view(&self) -> Map<u64, u64> {
        self.node_sequences@
    }
}

impl ReplicationCheckpoint {
    pub fn new() -> (r: Self)
        ensures
            r@ == Map::<u64, u64>::empty(),
    {
        ReplicationCheckpoint { node_sequences: HashMap::new() }
    }

    /// The last contiguous sequence recorded for `node_id` (zero if none).
    pub fn last_seq_for(&self, node_id: NodeId) -> (r: u64)
        ensures
            r == value_or_zero(self@, node_id.0),
    {
        match self.node_sequences.get(&node_id.0) {
            Some(s) => *s,
            None => 0,
        }
    }

    /// Record `seq` for `node_id`.
    pub fn update(&mut self, node_id: NodeId, seq: u64)
        ensures
            final(self)@ == old(self)@.insert(node_id.0, seq),
    {
        self.node_sequences.insert(node_id.0, seq);
    }

    pub fn duplicate(&self) -> (r: Self)
        ensures
            r@ == self@,
    {
        ReplicationCheckpoint { node_sequences: self.node_sequences.clone() }
    }
}

/// Checkpoints kept per peer.
pub struct InMemoryCheckpointStore {
    checkpoints: HashMap<u64, ReplicationCheckpoint>,
}

/// The checkpoint stored for `peer`, empty when there is none.
pub open spec fn checkpoint_or_empty(m: Map<u64, Map<u64, u64>>, peer: NodeId) -> Map<u64, u64> {
    if m.contains_key(peer.0) {
        m[peer.0]
    } else {
        Map::empty()
    }
}

impl View for InMemoryCheckpointStore {
    type V = Map<u64, Map<u64, u64>>;

    closed spec fn view(&self) -> Map<u64, Map<u64, u64>> {
        self.checkpoints@.map_values(|c: ReplicationCheckpoint| c@)
    }
}

impl InMemoryCheckpointStore {
    pub fn new() -> (r: Self)
        ensures
            r@ == Map::<u64, Map<u64, u64>>::empty(),
    {
        let r = InMemoryCheckpointStore { checkpoints: HashMap::new() };
        assert(r@ =~= Map::<u64, Map<u64, u64>>::empty());
        r
    }

    /// The checkpoint saved for `peer`, or an empty one.
    pub fn get_checkpoint(&self, peer: NodeId) -> (r: Result<ReplicationCheckpoint, StorageError>)
        ensures
            r is Ok,
            r->Ok_0@ == checkpoint_or_empty(self@, peer),
    {
        match self.checkpoints.get(&peer.0) {
            Some(c) => Ok(c.duplicate()),
            None => Ok(ReplicationCheckpoint::new()),
        }
    }

    /// Save the checkpoint for `peer`.
    pub fn save_checkpoint(&mut self, peer: NodeId, checkpoint: ReplicationCheckpoint) -> (r: Result<
        (),
        StorageError,
    >)
        ensures
            r is Ok,
            final(self)@ == old(self)@.insert(peer.0, checkpoint@),
    {
        let ghost c = checkpoint@;
        self.checkpoints.insert(peer.0, checkpoint);
        assert(self@ =~= old(self)@.insert(peer.0, c));
        Ok(())
    }
}

fn node_zero() -> (r: NodeId)
    ensures
        r == NodeId(0),
{
    NodeId(0)
}

/// Order of event keys: by node, then by sequence (the order of their
/// 16-byte big-endian storage keys).
pub open spec fn key_lt(a: EventId, b: EventId) -> bool {
    a.node_id.0 < b.node_id.0 || (a.node_id.0 == b.node_id.0 && a.sequence < b.sequence)
}

/// Events strictly ordered by key (so no two share an id).
pub open spec fn sorted_by_key(s: Seq<EventModel>) -> bool {
    forall|i: int, j: int| 0 <= i < j < s.len() ==> key_lt(#[trigger] s[i].id, #[trigger] s[j].id)
}

/// Whether some event of `s` has id `id`.
pub open spec fn has_id(s: Seq<EventModel>, id: EventId) -> bool {
    exists|i: int| 0 <= i < s.len() && #[trigger] s[i].id == id
}

/// Abstract state of the event log.
pub ghost struct EventLogModel {
    /// Stored events in key order.
    pub events: Seq<EventModel>,
    /// Per node, the highest sequence number stored (the high-watermark).
    pub watermarks: Map<u64, u64>,
}

/// The high-watermark of `node` (zero when it has none).
pub open spec fn watermark(m: EventLogModel, node: NodeId) -> u64 {
    value_or_zero(m.watermarks, node.0)
}

/// `post` is `pre` with the event `ev` appended by `append_local` for `node`:
/// the event takes the next sequence of `node`, which becomes its
/// high-watermark.
pub open spec fn appended_locally(pre: EventLogModel, post: EventLogModel, node: NodeId, ev: EventModel) -> bool {
    &&& watermark(pre, node) < u64::MAX
    &&& ev.id == (EventId { node_id: node, sequence: (watermark(pre, node) + 1) as u64 })
    &&& post.watermarks == pre.watermarks.insert(node.0, ev.id.sequence)
    &&& exists|p: int| 0 <= p <= pre.events.len() && post.events == pre.events.insert(p, ev)
}

/// A value is in a sequence after an insertion iff it was there before or
/// is the inserted one.
pub proof fn lemma_insert_contains<A>(s: Seq<A>, p: int, v: A)
    requires
        0 <= p <= s.len(),
    ensures
        forall|x: A| #[trigger] s.insert(p, v).contains(x) <==> s.contains(x) || x == v,
{
    let t = s.insert(p, v);
    assert forall|x: A| #[trigger] t.contains(x) <==> s.contains(x) || x == v by {
        if t.contains(x) {
            let i = choose|i: int| 0 <= i < t.len() && t[i] == x;
            if i < p {
                assert(s[i] == x);
            } else if i > p {
                assert(s[i - 1] == x);
            }
        }
        if s.contains(x) {
            let i = choose|i: int| 0 <= i < s.len() && s[i] == x;
            if i < p {
                assert(t[i] == x);
            } else {
                assert(t[i + 1] == x);
            }
        }
        if x == v {
            assert(t[p] == x);
        }
    }
}

/// Local appends on one node, however many, produce the sequences
/// `1, 2, 3, ...` in order, without duplicates or gaps, starting from a log
/// in which the node has no events.
pub proof fn lemma_local_sequences(states: Seq<EventLogModel>, evs: Seq<EventModel>, node: NodeId)
    requires
        states.len() == evs.len() + 1,
        watermark(states[0], node) == 0,
        forall|i: int| 0 <= i < evs.len() ==> appended_locally(#[trigger] states[i], states[i + 1], node, evs[i]),
    ensures
        forall|i: int| 0 <= i < evs.len() ==> (#[trigger] evs[i]).id == (EventId { node_id: node, sequence: (i + 1) as u64 }),
{
    assert forall|i: int| 0 <= i < evs.len() implies (#[trigger] evs[i]).id == (EventId { node_id: node, sequence: (i + 1) as u64 }) by {
        lemma_watermark_counts(states, evs, node, i);
    }
}

proof fn lemma_watermark_counts(states: Seq<EventLogModel>, evs: Seq<EventModel>, node: NodeId, i: int)
    requires
        states.len() == evs.len() + 1,
        watermark(states[0], node) == 0,
        forall|i: int| 0 <= i < evs.len() ==> appended_locally(#[trigger] states[i], states[i + 1], node, evs[i]),
        0 <= i <= evs.len(),
    ensures
        watermark(states[i], node) == i,
    decreases i,
{
    if i > 0 {
        lemma_watermark_counts(states, evs, node, i - 1);
        assert(appended_locally(states[i - 1], states[i], node, evs[i - 1]));
    }
}

/// An event created by [`InMemoryEventStore::append_local`] and its sequence.
#[derive(Clone, Debug)]
pub struct AppendResult {
    pub event: Event,
    pub sequence: u64,
}

/// The append-only event log, keyed by `(node, sequence)`.
pub struct InMemoryEventStore {
    events: Vec<Event>,
    sequences: HashMap<u64, u64>,
}

impl View for InMemoryEventStore {
    type V = EventLogModel;

    closed spec fn view(&self) -> EventLogModel {
        EventLogModel { events: event_views(self.events@), watermarks: self.sequences@ }
    }
}

impl InMemoryEventStore {
    /// Events are in key order, and no event lies above its node's
    /// high-watermark.
    pub open spec fn wf(&self) -> bool {
        &&& sorted_by_key(self@.events)
        &&& forall|i: int|
            0 <= i < self@.events.len() ==> (#[trigger] self@.events[i]).id.sequence <= watermark(
                self@,
                self@.events[i].id.node_id,
            )
    }

    pub fn new() -> (r: Self)
        ensures
            r.wf(),
            r@.events == Seq::<EventModel>::empty(),
            r@.watermarks == Map::<u64, u64>::empty(),
    {
        let r = InMemoryEventStore { events: Vec::new(), sequences: HashMap::new() };
        assert(r@.events =~= Seq::<EventModel>::empty());
        r
    }

    /// The first index whose key is not below `id`.
    fn position_of(&self, id: EventId) -> (p: usize)
        requires
            self.wf(),
        ensures
            p <= self@.events.len(),
            forall|i: int| 0 <= i < p ==> key_lt(#[trigger] self@.events[i].id, id),
            forall|i: int| p <= i < self@.events.len() ==> !key_lt(#[trigger] self@.events[i].id, id),
    {
        let mut lo: usize = 0;
        let mut hi: usize = self.events.len();
        while lo < hi
            invariant
                self.wf(),
                lo <= hi <= self@.events.len(),
                forall|i: int| 0 <= i < lo ==> key_lt(#[trigger] self@.events[i].id, id),
                forall|i: int| hi <= i < self@.events.len() ==> !key_lt(#[trigger] self@.events[i].id, id),
            decreases hi - lo,
        {
            let mid = lo + (hi - lo) / 2;
            let k = self.events[mid].id;
            assert(self@.events[mid as int].id == k);
            if k.node_id.0 < id.node_id.0 || (k.node_id.0 == id.node_id.0 && k.sequence < id.sequence) {
                lo = mid + 1;
            } else {
                hi = mid;
            }
        }
        lo
    }

    /// The high-watermark of `node`.
    fn watermark_of(&self, node: NodeId) -> (r: u64)
        ensures
            r == watermark(self@, node),
    {
        match self.sequences.get(&node.0) {
            Some(s) => *s,
            None => 0,
        }
    }

    proof fn lemma_insert_keeps_order(&self, p: int, ev: EventModel)
        requires
            self.wf(),
            0 <= p <= self@.events.len(),
            forall|i: int| 0 <= i < p ==> key_lt(#[trigger] self@.events[i].id, ev.id),
            forall|i: int| p <= i < self@.events.len() ==> key_lt(ev.id, #[trigger] self@.events[i].id),
        ensures
            sorted_by_key(self@.events.insert(p, ev)),
    {
        let s = self@.events.insert(p, ev);
        assert forall|i: int, j: int| 0 <= i < j < s.len() implies key_lt(#[trigger] s[i].id, #[trigger] s[j].id) by {
            if j < p {
            } else if j == p {
            } else if i < p {
                assert(s[j] == self@.events[j - 1]);
            } else if i == p {
                assert(s[j] == self@.events[j - 1]);
            } else {
                assert(s[i] == self@.events[i - 1]);
                assert(s[j] == self@.events[j - 1]);
            }
        }
    }

    /// Insert an event idempotently. Returns `true` if it was stored and
    /// `false` if an event with its id was already present, in which case
    /// nothing changes. Raises the node's high-watermark to the event's
    /// sequence if that is higher.
    pub fn append(&mut self, event: Event) -> (r: Result<bool, StorageError>)
        requires
            old(self).wf(),
        ensures
            final(self).wf(),
            r == Ok::<bool, StorageError>(!has_id(old(self)@.events, event.id)),
            has_id(old(self)@.events, event.id) ==> final(self)@ == old(self)@,
            !has_id(old(self)@.events, event.id) ==> {
                &&& exists|p: int|
                    0 <= p <= old(self)@.events.len() && final(self)@.events == old(self)@.events.insert(
                        p,
                        event@,
                    )
                &&& final(self)@.watermarks == if event.id.sequence > watermark(old(self)@, event.id.node_id) {
                    old(self)@.watermarks.insert(event.id.node_id.0, event.id.sequence)
                } else {
                    old(self)@.watermarks
                }
            },
    {
        let id = event.id;
        let p = self.position_of(id);
        if p < self.events.len() && self.events[p].id == id {
            assert(self@.events[p as int].id == id);
            return Ok(false);
        }
        proof {
            assert(!has_id(self@.events, id)) by {
                if has_id(self@.events, id) {
                    let k = choose|k: int| 0 <= k < self@.events.len() && #[trigger] self@.events[k].id == id;
                    if k > p {
                        assert(key_lt(self@.events[p as int].id, self@.events[k].id));
                    }
                }
            }
            assert forall|i: int| p <= i < self@.events.len() implies key_lt(id, #[trigger] self@.events[i].id) by {
                if i > p {
                    assert(key_lt(self@.events[p as int].id, self@.events[i].id));
                }
            }
            self.lemma_insert_keeps_order(p as int, event@);
        }
        let ghost old_events = self@.events;
        let current = self.watermark_of(id.node_id);
        self.events.insert(p, event);
        assert(self@.events =~= old_events.insert(p as int, event@)) by {
            assert(event_views(self.events@) =~= old_events.insert(p as int, event@));
        }
        if id.sequence > current {
            self.sequences.insert(id.node_id.0, id.sequence);
        }
        proof {
            let s = self@.events;
            assert forall|i: int| 0 <= i < s.len() implies (#[trigger] s[i]).id.sequence <= watermark(self@, s[i].id.node_id) by {
                if i < p {
                    assert(s[i] == old_events[i]);
                } else if i > p {
                    assert(s[i] == old_events[i - 1]);
                }
            }
        }
        Ok(true)
    }

    /// Atomically create the next local event of `node_id`: its sequence is
    /// one past the node's high-watermark, which it becomes. Fails only when
    /// the sequence numbers of the node are used up.
    pub fn append_local(
        &mut self,
        node_id: NodeId,
        entity_id: EntityId,
        hlc: HlcTimestamp,
        payload: Payload,
    ) -> (r: Result<AppendResult, StorageError>)
        requires
            old(self).wf(),
        ensures
            final(self).wf(),
            r is Err <==> watermark(old(self)@, node_id) == u64::MAX,
            r is Err ==> final(self)@ == old(self)@ && r == Err::<AppendResult, StorageError>(
                StorageError::SequenceExhausted(node_id.0),
            ),
            r is Ok ==> {
                let res = r->Ok_0;
                &&& res.sequence == watermark(old(self)@, node_id) + 1
                &&& res.event@ == (EventModel {
                    id: EventId { node_id, sequence: res.sequence },
                    entity_id,
                    hlc,
                    payload: payload@,
                })
                &&& appended_locally(old(self)@, final(self)@, node_id, res.event@)
            },
    {
        let current = self.watermark_of(node_id);
        if current == u64::MAX {
            return Err(StorageError::SequenceExhausted(node_id.0));
        }
        let sequence = current + 1;
        let id = EventId::new(node_id, sequence);
        let event = Event::new(id, entity_id, hlc, payload);
        let copy = event.duplicate();
        let p = self.position_of(id);
        proof {
            assert(!has_id(self@.events, id));
            assert forall|i: int| p <= i < self@.events.len() implies key_lt(id, #[trigger] self@.events[i].id) by {
                assert(self@.events[i].id != id);
            }
            self.lemma_insert_keeps_order(p as int, event@);
        }
        let ghost old_events = self@.events;
        self.events.insert(p, event);
        assert(self@.events =~= old_events.insert(p as int, copy@)) by {
            assert(event_views(self.events@) =~= old_events.insert(p as int, copy@));
        }
        self.sequences.insert(node_id.0, sequence);
        proof {
            let s = self@.events;
            assert forall|i: int| 0 <= i < s.len() implies (#[trigger] s[i]).id.sequence <= watermark(self@, s[i].id.node_id) by {
                if i < p {
                    assert(s[i] == old_events[i]);
                } else if i > p {
                    assert(s[i] == old_events[i - 1]);
                }
            }
        }
        Ok(AppendResult { event: copy, sequence })
    }

    /// Copies of the stored events that satisfy `keep`.
    fn collect(&self, keep: Ghost<spec_fn(EventModel) -> bool>, entity: Option<EntityId>, node: NodeId, since: u64) -> (r: Vec<Event>)
        requires
            match entity {
                Some(x) => keep@ == (|e: EventModel| e.entity_id == x),
                None => keep@ == (|e: EventModel| e.id.node_id == node && e.id.sequence > since),
            },
        ensures
            event_views(r@) == self@.events.filter(keep@),
    {
        let mut out: Vec<Event> = Vec::new();
        let mut i: usize = 0;
        while i < self.events.len()
            invariant
                i <= self.events.len(),
                match entity {
                    Some(x) => keep@ == (|e: EventModel| e.entity_id == x),
                    None => keep@ == (|e: EventModel| e.id.node_id == node && e.id.sequence > since),
                },
                event_views(out@) == self@.events.take(i as int).filter(keep@),
            decreases self.events.len() - i,
        {
            let e = &self.events[i];
            let wanted = match entity {
                Some(x) => e.entity_id == x,
                None => e.id.node_id.0 == node.0 && e.id.sequence > since,
            };
            proof {
                assert(self@.events.take(i + 1) == self@.events.take(i as int).push(self@.events[i as int]));
                self@.events.take(i as int).lemma_filter_push(self@.events[i as int], keep@);
                assert(self@.events[i as int] == e@);
                assert(wanted == (keep@)(e@));
            }
            if wanted {
                let ghost before = out@;
                out.push(e.duplicate());
                assert(event_views(out@) =~= event_views(before).push(e@));
            }
            i = i + 1;
        }
        assert(self@.events.take(self.events.len() as int) == self@.events);
        out
    }

    /// Every stored event of `entity_id`, in key order.
    pub fn get_events_for_entity(&self, entity_id: EntityId) -> (r: Result<Vec<Event>, StorageError>)
        ensures
            r is Ok,
            event_views(r->Ok_0@) == self@.events.filter(|e: EventModel| e.entity_id == entity_id),
    {
        Ok(self.collect(Ghost(|e: EventModel| e.entity_id == entity_id), Some(entity_id), node_zero(), 0))
    }

    /// The events of `node_id` with sequence above `since_seq`, in ascending
    /// sequence order.
    pub fn get_events_since(&self, node_id: NodeId, since_seq: u64) -> (r: Result<Vec<Event>, StorageError>)
        ensures
            r is Ok,
            event_views(r->Ok_0@) == self@.events.filter(
                |e: EventModel| e.id.node_id == node_id && e.id.sequence > since_seq,
            ),
    {
        Ok(self.collect(Ghost(|e: EventModel| e.id.node_id == node_id && e.id.sequence > since_seq), None, node_id, since_seq))
    }

    /// Every stored event, in key order.
    pub fn get_all_events(&self) -> (r: Result<Vec<Event>, StorageError>)
        ensures
            r is Ok,
            event_views(r->Ok_0@) == self@.events,
    {
        let mut out: Vec<Event> = Vec::new();
        let mut i: usize = 0;
        while i < self.events.len()
            invariant
                i <= self.events.len(),
                event_views(out@) == self@.events.take(i as int),
            decreases self.events.len() - i,
        {
            let ghost before = out@;
            out.push(self.events[i].duplicate());
            assert(event_views(out@) =~= event_views(before).push(self.events@[i as int]@));
            assert(self@.events.take(i + 1) =~= self@.events.take(i as int).push(self@.events[i as int]));
            i = i + 1;
        }
        assert(self@.events.take(self.events.len() as int) =~= self@.events);
        Ok(out)
    }

    /// One past the high-watermark of `node_id`. Advisory only: local events
    /// must be created with [`InMemoryEventStore::append_local`].
    pub fn next_sequence(&self, node_id: NodeId) -> (r: Result<u64, StorageError>)
        ensures
            watermark(self@, node_id) < u64::MAX ==> r == Ok::<u64, StorageError>((watermark(self@, node_id) + 1) as u64),
            watermark(self@, node_id) == u64::MAX ==> r == Err::<u64, StorageError>(StorageError::SequenceExhausted(node_id.0)),
    {
        let current = self.watermark_of(node_id);
        if current == u64::MAX {
            return Err(StorageError::SequenceExhausted(node_id.0));
        }
        Ok(current + 1)
    }
}

} // verus!
