//! A replica: clock, event log, entity view and checkpoints of one node,
//! with the commands that write markers and the steps of a pull cycle.

use vstd::prelude::*;
use vstd::string::StringExecFns;

use crate::checkpoint::{checkpoint_after, has_seq, CheckpointManager};
use crate::entity::{entity_of, Entity, EntityModel};
use crate::entity_store::{lemma_lww_convergence, lww_fold, lww_upsert, InMemoryEntityStore};
use crate::materializer::timestamps_distinct;
use crate::event::{
    parse_entity_id, random_entity_id, uuid_parsed, Degrees, EntityId, Event, EventId,
    EventModel, MarkerData, Payload, PayloadModel, event_views,
};
use crate::hlc::{hlc_lt, lemma_receive_covers, now_result, stamp_covers, state_after, ClockError, Hlc};
use crate::icon::{find_icon, icon_known, Icon};
use crate::node::{NodeId, PeerConfig};
use crate::protocol::{PullRequest, PullResponse};
use crate::storage::{
    appended_locally, checkpoint_or_empty, has_id, lemma_insert_contains, value_or_zero, watermark,
    InMemoryCheckpointStore, InMemoryEventStore, StorageError,
};
use crate::validation::{marker_error_ok, marker_ok, ValidationError, Validator};

verus! {

/// Errors of the commands.
#[derive(Clone, Debug, PartialEq)]
pub enum CoreError {
    Validation(ValidationError),
    Clock(ClockError),
    Storage(StorageError),
    /// A marker id that is no UUID; carries the text.
    InvalidMarkerId(String),
}

/// The checkpoint recorded for `peer` (zero if none).
pub open spec fn checkpoint_of(ckpts: Map<u64, Map<u64, u64>>, peer: NodeId) -> u64 {
    value_or_zero(checkpoint_or_empty(ckpts, peer), peer.0)
}

/// Every sequence at or below a peer's checkpoint is in the log.
pub open spec fn checkpoints_covered(ckpts: Map<u64, Map<u64, u64>>, log: Seq<EventModel>) -> bool {
    forall|p: u64, k: int|
        1 <= k <= checkpoint_of(ckpts, NodeId(p)) ==> #[trigger] has_seq(log, NodeId(p), k)
}

/// A log that keeps every event of `pre` keeps every sequence of it.
pub proof fn lemma_covered_grows(ckpts: Map<u64, Map<u64, u64>>, pre: Seq<EventModel>, post: Seq<EventModel>)
    requires
        checkpoints_covered(ckpts, pre),
        forall|x: EventModel| pre.contains(x) ==> #[trigger] post.contains(x),
    ensures
        checkpoints_covered(ckpts, post),
{
    assert forall|p: u64, k: int| 1 <= k <= checkpoint_of(ckpts, NodeId(p)) implies #[trigger] has_seq(post, NodeId(p), k) by {
        assert(has_seq(pre, NodeId(p), k));
        let i = choose|i: int| 0 <= i < pre.len() && #[trigger] pre[i].id.node_id == NodeId(p) && pre[i].id.sequence == k;
        assert(pre.contains(pre[i]));
        assert(post.contains(pre[i]));
        let j = choose|j: int| 0 <= j < post.len() && post[j] == pre[i];
        assert(post[j].id.node_id == NodeId(p));
    }
}

/// Whether the clock takes a remote event at physical time `physical` with
/// drift bound `max_drift` (else it reports the remote clock ahead).
pub open spec fn accepts(physical: u64, max_drift: u64) -> spec_fn(EventModel) -> bool {
    |e: EventModel| e.hlc.wall_time <= physical + max_drift
}

/// The view after upserting, in order, the entity of each event of `s`
/// into `m`.
pub open spec fn lww_apply(m: Map<EntityId, EntityModel>, s: Seq<EventModel>) -> Map<EntityId, EntityModel>
    decreases s.len(),
{
    if s.len() == 0 {
        m
    } else {
        lww_upsert(lww_apply(m, s.drop_last()), entity_of(s.last()))
    }
}

/// Upserting events into an empty view, in order, is the fold of
/// [`lww_fold`].
pub proof fn lemma_lww_apply_empty(s: Seq<EventModel>)
    ensures
        lww_apply(Map::empty(), s) == lww_fold(s),
    decreases s.len(),
{
    if s.len() > 0 {
        lemma_lww_apply_empty(s.drop_last());
    }
}

/// Upserting `a` and then `b` is upserting `a + b`.
pub proof fn lemma_lww_apply_append(m: Map<EntityId, EntityModel>, a: Seq<EventModel>, b: Seq<EventModel>)
    ensures
        lww_apply(lww_apply(m, a), b) == lww_apply(m, a + b),
    decreases b.len(),
{
    if b.len() > 0 {
        lemma_lww_apply_append(m, a, b.drop_last());
        assert((a + b).drop_last() == a + b.drop_last());
        assert((a + b).last() == b.last());
    } else {
        assert(a + b == a);
    }
}

/// Two well-formed replicas whose logs hold the same events, distinct events
/// carrying distinct timestamps, hold the same entity view.
pub proof fn lemma_replica_views_converge(a: Replica, b: Replica)
    requires
        a.wf(),
        b.wf(),
        a.events@.events.to_set() == b.events@.events.to_set(),
        timestamps_distinct(a.events@.events),
    ensures
        a.entities@ == b.entities@,
{
    lemma_timestamps_distinct_same_set(a.history@, a.events@.events);
    lemma_replicas_converge(a.history@, b.history@);
}

/// Replicas that started empty and applied the same set of events, in any
/// order and with any repetition, whose distinct events carry distinct
/// timestamps, hold the same entity view.
pub proof fn lemma_replicas_converge(s1: Seq<EventModel>, s2: Seq<EventModel>)
    requires
        s1.to_set() == s2.to_set(),
        timestamps_distinct(s1),
    ensures
        lww_apply(Map::empty(), s1) == lww_apply(Map::empty(), s2),
{
    lemma_lww_apply_empty(s1);
    lemma_lww_apply_empty(s2);
    lemma_lww_convergence(s1, s2);
}

/// Whether upserting `e` into `m` changes it.
pub open spec fn replaces(m: Map<EntityId, EntityModel>, e: EntityModel) -> bool {
    !(m.contains_key(e.id) && !hlc_lt(m[e.id].hlc, e.hlc))
}

/// How many of the upserts of `lww_apply(m, s)` change the view.
pub open spec fn lww_changes(m: Map<EntityId, EntityModel>, s: Seq<EventModel>) -> nat
    decreases s.len(),
{
    if s.len() == 0 {
        0
    } else {
        lww_changes(m, s.drop_last()) + if replaces(lww_apply(m, s.drop_last()), entity_of(s.last())) {
            1nat
        } else {
            0nat
        }
    }
}

/// Counts of a pull cycle.
#[derive(Clone, Copy, Debug, PartialEq, Eq)]
pub struct SyncStats {
    pub events_received: usize,
    pub entities_updated: usize,
    pub peers_synced: usize,
    pub peers_failed: usize,
}

impl SyncStats {
    pub fn new() -> (r: Self)
        ensures
            r == (SyncStats { events_received: 0, entities_updated: 0, peers_synced: 0, peers_failed: 0 }),
    {
        SyncStats { events_received: 0, entities_updated: 0, peers_synced: 0, peers_failed: 0 }
    }

    /// Add the counts of a peer that synced (saturating).
    pub fn absorb(&mut self, peer: &SyncStats)
        ensures
            final(self).events_received == sat_add(old(self).events_received, peer.events_received),
            final(self).entities_updated == sat_add(old(self).entities_updated, peer.entities_updated),
            final(self).peers_synced == sat_add(old(self).peers_synced, 1),
            final(self).peers_failed == old(self).peers_failed,
    {
        self.events_received = self.events_received.saturating_add(peer.events_received);
        self.entities_updated = self.entities_updated.saturating_add(peer.entities_updated);
        self.peers_synced = self.peers_synced.saturating_add(1);
    }

    /// Count a peer that failed (saturating).
    pub fn record_failure(&mut self)
        ensures
            *final(self) == (SyncStats { peers_failed: sat_add(old(self).peers_failed, 1), ..*old(self) }),
    {
        self.peers_failed = self.peers_failed.saturating_add(1);
    }
}

/// Addition that stays at the maximum.
pub open spec fn sat_add(a: usize, b: usize) -> usize {
    if a + b > usize::MAX {
        usize::MAX
    } else {
        (a + b) as usize
    }
}

/// One node of the marker store.
pub struct Replica {
    pub node_id: NodeId,
    pub clock: Hlc,
    pub events: InMemoryEventStore,
    pub entities: InMemoryEntityStore,
    pub checkpoints: InMemoryCheckpointStore,
    /// Icons markers may use.
    pub icons: Vec<Icon>,
    /// Peers to pull from, in polling order.
    pub peers: Vec<PeerConfig>,
    /// Every event folded into the entity view so far, in order.
    pub history: Ghost<Seq<EventModel>>,
}

/// What creating a marker from `data` under `entity_id` at physical time
/// `physical` does: input is validated before the clock is consulted, and
/// on any error nothing changes.
pub open spec fn create_outcome(
    pre: Replica,
    post: Replica,
    data: MarkerData,
    entity_id: EntityId,
    physical: u64,
    r: Result<EventId, CoreError>,
) -> bool {
    &&& post.node_id == pre.node_id
    &&& post.icons == pre.icons
    &&& post.peers == pre.peers
    &&& post.checkpoints@ == pre.checkpoints@
    &&& {
        let stamp = now_result(pre.clock@, physical);
        let wm = watermark(pre.events@, pre.node_id);
        if !marker_ok(data@) {
            &&& r is Err && r->Err_0 is Validation && marker_error_ok(data@, r->Err_0->Validation_0)
            &&& post.clock == pre.clock
            &&& post.events@ == pre.events@
            &&& post.entities@ == pre.entities@
        } else if !icon_known(pre.icons@, data.icon_id@) {
            &&& r is Err && r->Err_0 is Validation && r->Err_0->Validation_0 is IconNotFound
            &&& r->Err_0->Validation_0->IconNotFound_0@ == data.icon_id@
            &&& post.clock == pre.clock
            &&& post.events@ == pre.events@
            &&& post.entities@ == pre.entities@
        } else if wm == u64::MAX {
            &&& r == Err::<EventId, CoreError>(CoreError::Storage(StorageError::SequenceExhausted(pre.node_id.0)))
            &&& post.clock == pre.clock
            &&& post.events@ == pre.events@
            &&& post.entities@ == pre.entities@
        } else if stamp is Err {
            &&& r == Err::<EventId, CoreError>(CoreError::Clock(stamp->Err_0))
            &&& post.clock@ == pre.clock@
            &&& post.events@ == pre.events@
            &&& post.entities@ == pre.entities@
        } else {
            let ev = EventModel {
                id: EventId { node_id: pre.node_id, sequence: (wm + 1) as u64 },
                entity_id,
                hlc: stamp->Ok_0,
                payload: PayloadModel::Upsert(data@),
            };
            &&& r == Ok::<EventId, CoreError>(ev.id)
            &&& post.clock@ == state_after(pre.clock@, stamp)
            &&& appended_locally(pre.events@, post.events@, pre.node_id, ev)
            &&& post.entities@ == lww_upsert(pre.entities@, entity_of(ev))
        }
    }
}

/// What deleting the marker `entity_id` at physical time `physical` does:
/// an unknown or already deleted marker is refused, and on any error
/// nothing changes.
pub open spec fn delete_outcome(
    pre: Replica,
    post: Replica,
    entity_id: EntityId,
    physical: u64,
    r: Result<EventId, CoreError>,
) -> bool {
    &&& post.node_id == pre.node_id
    &&& post.icons == pre.icons
    &&& post.peers == pre.peers
    &&& post.checkpoints@ == pre.checkpoints@
    &&& {
        let stamp = now_result(pre.clock@, physical);
        let wm = watermark(pre.events@, pre.node_id);
        if !pre.entities@.contains_key(entity_id) || pre.entities@[entity_id].deleted {
            &&& r == Err::<EventId, CoreError>(CoreError::Storage(StorageError::EntityNotFound(entity_id)))
            &&& post.clock == pre.clock
            &&& post.events@ == pre.events@
            &&& post.entities@ == pre.entities@
        } else if wm == u64::MAX {
            &&& r == Err::<EventId, CoreError>(CoreError::Storage(StorageError::SequenceExhausted(pre.node_id.0)))
            &&& post.clock == pre.clock
            &&& post.events@ == pre.events@
            &&& post.entities@ == pre.entities@
        } else if stamp is Err {
            &&& r == Err::<EventId, CoreError>(CoreError::Clock(stamp->Err_0))
            &&& post.clock@ == pre.clock@
            &&& post.events@ == pre.events@
            &&& post.entities@ == pre.entities@
        } else {
            let ev = EventModel {
                id: EventId { node_id: pre.node_id, sequence: (wm + 1) as u64 },
                entity_id,
                hlc: stamp->Ok_0,
                payload: PayloadModel::Tombstone,
            };
            &&& r == Ok::<EventId, CoreError>(ev.id)
            &&& post.clock@ == state_after(pre.clock@, stamp)
            &&& appended_locally(pre.events@, post.events@, pre.node_id, ev)
            &&& post.entities@ == lww_upsert(pre.entities@, entity_of(ev))
        }
    }
}

/// The events of `s` that are new to a log holding `log`, in order: each is
/// kept unless its id is in the log or among the events kept before it.
pub open spec fn fresh_events(log: Seq<EventModel>, s: Seq<EventModel>) -> Seq<EventModel>
    decreases s.len(),
{
    if s.len() == 0 {
        Seq::empty()
    } else {
        let f = fresh_events(log, s.drop_last());
        if has_id(log, s.last().id) || has_id(f, s.last().id) {
            f
        } else {
            f.push(s.last())
        }
    }
}

/// What applying the events `events` that `peer` sent, at physical time
/// `physical`, does. Events the clock accepts are stamped through it; those
/// new to the log are stored and folded into the entity view; then the
/// peer's checkpoint advances contiguously over the peer's events in the log.
pub open spec fn pull_outcome(
    pre: Replica,
    post: Replica,
    peer: NodeId,
    events: Seq<EventModel>,
    physical: u64,
    r: SyncStats,
) -> bool {
    &&& post.node_id == pre.node_id
    &&& post.icons == pre.icons
    &&& post.peers == pre.peers
    &&& post.clock@.node_id == pre.clock@.node_id
    &&& post.clock@.max_drift_ms == pre.clock@.max_drift_ms
    &&& stamp_covers(post.clock@.last, pre.clock@.last)
    &&& {
        let acc = events.filter(accepts(physical, pre.clock@.max_drift_ms));
        let fresh = fresh_events(pre.events@.events, acc);
        &&& forall|x: EventModel| #[trigger] acc.contains(x) ==> stamp_covers(post.clock@.last, x.hlc)
        &&& r == (SyncStats {
            events_received: events.len() as usize,
            entities_updated: lww_changes(pre.entities@, fresh) as usize,
            peers_synced: 0,
            peers_failed: 0,
        })
        &&& post.entities@ == lww_apply(pre.entities@, fresh)
        &&& post.history@ == pre.history@ + fresh
        &&& forall|x: EventModel| #[trigger] post.events@.events.contains(x) <==> pre.events@.events.contains(x) || fresh.contains(x)
        &&& forall|x: EventModel| #[trigger] acc.contains(x) ==> has_id(post.events@.events, x.id)
        &&& post.checkpoints@ == if events.len() == 0 {
            pre.checkpoints@
        } else {
            pre.checkpoints@.insert(
                peer.0,
                checkpoint_after(checkpoint_or_empty(pre.checkpoints@, peer), peer, post.events@.events),
            )
        }
    }
}

/// Events whose ids are all in the log are none of them new to it.
proof fn lemma_fresh_events_none(log: Seq<EventModel>, s: Seq<EventModel>)
    requires
        forall|x: EventModel| #[trigger] s.contains(x) ==> has_id(log, x.id),
    ensures
        fresh_events(log, s) == Seq::<EventModel>::empty(),
    decreases s.len(),
{
    if s.len() > 0 {
        let t = s.drop_last();
        assert forall|x: EventModel| #[trigger] t.contains(x) implies has_id(log, x.id) by {
            let k = choose|k: int| 0 <= k < t.len() && t[k] == x;
            assert(s[k] == x);
            assert(s.contains(x));
        }
        lemma_fresh_events_none(log, t);
        assert(s.contains(s.last()));
    }
}

/// Replaying a delivery: applying the same events a second time at the same
/// physical time leaves the log's events, the entity view and the
/// checkpoints as the first application left them, and updates no entity.
pub proof fn lemma_pull_idempotent(
    r0: Replica,
    r1: Replica,
    r2: Replica,
    peer: NodeId,
    events: Seq<EventModel>,
    physical: u64,
    st1: SyncStats,
    st2: SyncStats,
)
    requires
        events.len() > 0,
        pull_outcome(r0, r1, peer, events, physical, st1),
        pull_outcome(r1, r2, peer, events, physical, st2),
    ensures
        forall|x: EventModel| #[trigger] r2.events@.events.contains(x) <==> r1.events@.events.contains(x),
        r2.entities@ == r1.entities@,
        r2.checkpoints@ == r1.checkpoints@,
        st2.entities_updated == 0,
{
    let acc = events.filter(accepts(physical, r0.clock@.max_drift_ms));
    assert(r1.clock@.max_drift_ms == r0.clock@.max_drift_ms);
    lemma_fresh_events_none(r1.events@.events, acc);
    let f2 = fresh_events(r1.events@.events, acc);
    assert(f2 == Seq::<EventModel>::empty());
    assert(lww_apply(r1.entities@, f2) == r1.entities@);
    assert(lww_changes(r1.entities@, f2) == 0);
    assert forall|x: EventModel| #[trigger] r2.events@.events.contains(x) <==> r1.events@.events.contains(x) by {
        assert(!f2.contains(x));
    }
    let c0 = checkpoint_or_empty(r0.checkpoints@, peer);
    let c1 = checkpoint_after(c0, peer, r1.events@.events);
    assert(checkpoint_or_empty(r1.checkpoints@, peer) == c1);
    crate::checkpoint::lemma_checkpoint_after_same_events(c1, peer, r2.events@.events, r1.events@.events);
    crate::checkpoint::lemma_update_contiguous_stops_at_gap(c0, peer, r1.events@.events);
    assert(r1.checkpoints@.insert(peer.0, c1) =~= r1.checkpoints@);
}

/// After an insertion, an id is present iff it was before or is the
/// inserted event's.
proof fn lemma_has_id_insert(s: Seq<EventModel>, p: int, v: EventModel, id: EventId)
    requires
        0 <= p <= s.len(),
    ensures
        has_id(s.insert(p, v), id) <==> has_id(s, id) || v.id == id,
{
    lemma_insert_contains(s, p, v);
    let t = s.insert(p, v);
    if has_id(t, id) {
        let k = choose|k: int| 0 <= k < t.len() && #[trigger] t[k].id == id;
        assert(t.contains(t[k]));
        if t[k] != v {
            assert(s.contains(t[k]));
            let q = choose|q: int| 0 <= q < s.len() && s[q] == t[k];
            assert(s[q].id == id);
        }
    }
    if has_id(s, id) {
        let k = choose|k: int| 0 <= k < s.len() && #[trigger] s[k].id == id;
        assert(s.contains(s[k]));
        assert(t.contains(s[k]));
        let q = choose|q: int| 0 <= q < t.len() && t[q] == s[k];
        assert(t[q].id == id);
    }
    if v.id == id {
        assert(t[p] == v);
    }
}

/// Two sequences holding the same events have distinct timestamps together.
proof fn lemma_timestamps_distinct_same_set(a: Seq<EventModel>, b: Seq<EventModel>)
    requires
        a.to_set() == b.to_set(),
        timestamps_distinct(b),
    ensures
        timestamps_distinct(a),
{
    assert forall|i: int, j: int| 0 <= i < a.len() && 0 <= j < a.len() && #[trigger] a[i].hlc == #[trigger] a[j].hlc implies a[i] == a[j] by {
        assert(a.contains(a[i]));
        assert(a.contains(a[j]));
        assert(a.to_set().contains(a[i]));
        assert(a.to_set().contains(a[j]));
        assert(b.to_set().contains(a[i]));
        assert(b.to_set().contains(a[j]));
        let k = choose|k: int| 0 <= k < b.len() && b[k] == a[i];
        let l = choose|l: int| 0 <= l < b.len() && b[l] == a[j];
        assert(b[k].hlc == b[l].hlc);
    }
}

impl Replica {
    /// Stores are well formed, the clock and its last stamp belong to this
    /// node, every checkpoint is covered by the log, and the entity view is
    /// the fold of exactly the events of the log.
    pub open spec fn wf(&self) -> bool {
        &&& self.events.wf()
        &&& self.entities.wf()
        &&& self.clock@.node_id == self.node_id
        &&& checkpoints_covered(self.checkpoints@, self.events@.events)
        &&& self.entities@ == lww_apply(Map::empty(), self.history@)
        &&& self.history@.to_set() == self.events@.events.to_set()
        &&& self.clock@.last.node_id == self.node_id
    }

    /// A fresh node with empty stores and a clock with the default drift bound.
    pub fn new(node_id: NodeId, icons: Vec<Icon>, peers: Vec<PeerConfig>) -> (r: Self)
        ensures
            r.wf(),
            r.node_id == node_id,
            r.icons == icons,
            r.peers == peers,
            r.clock@.last.wall_time == 0,
            r.events@.events.len() == 0,
            r.events@.watermarks == Map::<u64, u64>::empty(),
            r.entities@ == Map::<EntityId, crate::entity::EntityModel>::empty(),
            r.checkpoints@ == Map::<u64, Map<u64, u64>>::empty(),
    {
        Self::with_clock(node_id, Hlc::new(node_id), icons, peers)
    }

    /// A fresh node with empty stores and the given clock.
    pub fn with_clock(node_id: NodeId, clock: Hlc, icons: Vec<Icon>, peers: Vec<PeerConfig>) -> (r: Self)
        requires
            clock@.node_id == node_id,
            clock@.last.node_id == node_id,
        ensures
            r.wf(),
            r.node_id == node_id,
            r.clock@ == clock@,
            r.icons == icons,
            r.peers == peers,
            r.events@.events.len() == 0,
            r.events@.watermarks == Map::<u64, u64>::empty(),
            r.entities@ == Map::<EntityId, crate::entity::EntityModel>::empty(),
            r.checkpoints@ == Map::<u64, Map<u64, u64>>::empty(),
    {
        Replica {
            node_id,
            clock,
            events: InMemoryEventStore::new(),
            entities: InMemoryEntityStore::new(),
            checkpoints: InMemoryCheckpointStore::new(),
            icons,
            peers,
            history: Ghost(Seq::empty()),
        }
    }

    /// Append a local event for `entity_id` stamped `hlc` and fold it into
    /// the entity view.
    fn write_local(&mut self, entity_id: EntityId, hlc: crate::hlc::HlcTimestamp, payload: Payload) -> (r: EventId)
        requires
            old(self).wf(),
            watermark(old(self).events@, old(self).node_id) < u64::MAX,
        ensures
            final(self).wf(),
            r == (EventId { node_id: old(self).node_id, sequence: (watermark(old(self).events@, old(self).node_id) + 1) as u64 }),
            appended_locally(old(self).events@, final(self).events@, old(self).node_id, EventModel { id: r, entity_id, hlc, payload: payload@ }),
            final(self).entities@ == lww_upsert(old(self).entities@, entity_of(EventModel { id: r, entity_id, hlc, payload: payload@ })),
            final(self).clock == old(self).clock,
            final(self).checkpoints@ == old(self).checkpoints@,
            final(self).node_id == old(self).node_id,
            final(self).icons == old(self).icons,
            final(self).peers == old(self).peers,
    {
        let ghost pre = self.events@;
        let res = self.events.append_local(self.node_id, entity_id, hlc, payload);
        match res {
            Ok(res) => {
                proof {
                    let p = choose|p: int| 0 <= p <= pre.events.len() && self.events@.events == pre.events.insert(p, res.event@);
                    lemma_insert_contains(pre.events, p, res.event@);
                    lemma_covered_grows(self.checkpoints@, pre.events, self.events@.events);
                }
                let entity = Entity::from_event(&res.event);
                let _ = self.entities.upsert(entity);
                let ghost h = self.history@;
                self.history = Ghost(h.push(res.event@));
                assert(self.history@.drop_last() == h);
                proof {
                    let p = choose|p: int| 0 <= p <= pre.events.len() && self.events@.events == pre.events.insert(p, res.event@);
                    lemma_insert_contains(pre.events, p, res.event@);
                    assert forall|x: EventModel| #[trigger] self.history@.to_set().contains(x) == self.events@.events.to_set().contains(x) by {
                        assert(self.history@.to_set().contains(x) == self.history@.contains(x));
                        assert(h.to_set().contains(x) == h.contains(x));
                        assert(pre.events.to_set().contains(x) == pre.events.contains(x));
                        assert(self.events@.events.to_set().contains(x) == self.events@.events.contains(x));
                        if self.history@.contains(x) && x != res.event@ {
                            let k = choose|k: int| 0 <= k < self.history@.len() && self.history@[k] == x;
                            assert(h[k] == x);
                        }
                        if h.contains(x) {
                            let k = choose|k: int| 0 <= k < h.len() && h[k] == x;
                            assert(self.history@[k] == x);
                        }
                        assert(self.history@[h.len() as int] == res.event@);
                    }
                    assert(self.history@.to_set() =~= self.events@.events.to_set());
                }
                res.event.id
            },
            Err(_) => {
                assert(false);
                EventId::new(self.node_id, 0)
            },
        }
    }

    /// Create a marker, with the physical time and the new entity's id
    /// given. Input is validated before the clock is consulted; on any
    /// error nothing changes.
    pub fn create_marker_at(
        &mut self,
        lat: Degrees,
        lon: Degrees,
        icon_id: String,
        label: Option<String>,
        entity_id: EntityId,
        physical: u64,
    ) -> (r: Result<EventId, CoreError>)
        requires
            old(self).wf(),
        ensures
            final(self).wf(),
            create_outcome(*old(self), *final(self), MarkerData { lat, lon, icon_id, label }, entity_id, physical, r),
    {
        let data = MarkerData::new(lat, lon, icon_id, label);
        if let Err(e) = Validator::validate_marker_data(&data) {
            return Err(CoreError::Validation(e));
        }
        if !find_icon(self.icons.as_slice(), data.icon_id.as_str()) {
            return Err(CoreError::Validation(ValidationError::IconNotFound(data.icon_id)));
        }
        if let Err(e) = self.events.next_sequence(self.node_id) {
            return Err(CoreError::Storage(e));
        }
        let hlc = match self.clock.now_at(physical) {
            Ok(t) => t,
            Err(e) => return Err(CoreError::Clock(e)),
        };
        let id = self.write_local(entity_id, hlc, Payload::Upsert(data));
        Ok(id)
    }

    /// Create a marker at the current time under a fresh random id.
    pub fn create_marker(&mut self, lat: Degrees, lon: Degrees, icon_id: String, label: Option<String>) -> (r: Result<EventId, CoreError>)
        requires
            old(self).wf(),
        ensures
            final(self).wf(),
            exists|entity_id: EntityId, physical: u64|
                create_outcome(*old(self), *final(self), MarkerData { lat, lon, icon_id, label }, entity_id, physical, r),
    {
        let entity_id = random_entity_id();
        let physical = crate::hlc::system_time_millis();
        let ghost data = MarkerData { lat, lon, icon_id, label };
        let r = self.create_marker_at(lat, lon, icon_id, label, entity_id, physical);
        assert(create_outcome(*old(self), *self, data, entity_id, physical, r));
        r
    }

    /// Delete the marker `entity_id` by appending a tombstone, with the
    /// physical time given. Fails with `EntityNotFound` when the marker is
    /// unknown or already deleted; on any error nothing changes.
    pub fn delete_marker_at(&mut self, entity_id: EntityId, physical: u64) -> (r: Result<EventId, CoreError>)
        requires
            old(self).wf(),
        ensures
            final(self).wf(),
            delete_outcome(*old(self), *final(self), entity_id, physical, r),
    {
        match self.entities.get(entity_id) {
            Ok(Some(e)) => {
                if e.deleted {
                    return Err(CoreError::Storage(StorageError::EntityNotFound(entity_id)));
                }
            },
            _ => {
                return Err(CoreError::Storage(StorageError::EntityNotFound(entity_id)));
            },
        }
        if let Err(e) = self.events.next_sequence(self.node_id) {
            return Err(CoreError::Storage(e));
        }
        let hlc = match self.clock.now_at(physical) {
            Ok(t) => t,
            Err(e) => return Err(CoreError::Clock(e)),
        };
        let id = self.write_local(entity_id, hlc, Payload::Tombstone);
        Ok(id)
    }

    /// The request that pulls from `peer` what this node has not seen yet.
    pub fn pull_request(&self, peer: NodeId) -> (r: PullRequest)
        ensures
            r.from_node == self.node_id,
            r.target_node == peer,
            r.since_seq == checkpoint_of(self.checkpoints@, peer),
            r.limit == None::<usize>,
    {
        let since = match self.checkpoints.get_checkpoint(peer) {
            Ok(c) => c.last_seq_for(peer),
            Err(_) => 0,
        };
        PullRequest::new(self.node_id, peer, since)
    }

    /// Apply the events that `peer` sent, in delivery order, given the
    /// physical time. Each event passes through the clock first; one whose
    /// timestamp is too far ahead is skipped. Each accepted event is appended
    /// (idempotently) and its entity upserted under last-write-wins. Then the
    /// peer's checkpoint advances contiguously over the accepted events.
    pub fn apply_pull_response_at(&mut self, peer: NodeId, events: &[Event], physical: u64) -> (r: SyncStats)
        requires
            old(self).wf(),
        ensures
            final(self).wf(),
            pull_outcome(*old(self), *final(self), peer, event_views(events@), physical, r),
    {
        let mut stats = SyncStats::new();
        stats.events_received = events.len();
        if events.len() == 0 {
            proof {
                assert(event_views(events@) =~= Seq::<EventModel>::empty());
                assert(event_views(events@).filter(accepts(physical, old(self).clock@.max_drift_ms)) =~= Seq::<EventModel>::empty()) by {
                    reveal(Seq::filter);
                }
                assert(self.history@ + Seq::<EventModel>::empty() =~= self.history@);
            }
            return stats;
        }
        let ghost keep = accepts(physical, self.clock@.max_drift_ms);
        let ghost s = event_views(events@);
        let ghost old_log = self.events@.events;
        let ghost old_view = self.entities@;
        let ghost old_history = self.history@;
        let ghost old_last = self.clock@.last;
        let mut updated: usize = 0;
        let mut i: usize = 0;
        while i < events.len()
            invariant
                self.events.wf(),
                self.entities.wf(),
                self.node_id == old(self).node_id,
                self.icons == old(self).icons,
                self.peers == old(self).peers,
                self.checkpoints@ == old(self).checkpoints@,
                self.clock@.node_id == old(self).clock@.node_id,
                self.clock@.max_drift_ms == old(self).clock@.max_drift_ms,
                self.clock@.last.node_id == old(self).node_id,
                old(self).clock@.node_id == old(self).node_id,
                keep == accepts(physical, old(self).clock@.max_drift_ms),
                s == event_views(events@),
                old_log == old(self).events@.events,
                old_view == old(self).entities@,
                old_history == old(self).history@,
                old_last == old(self).clock@.last,
                old_view == lww_apply(Map::empty(), old_history),
                old_history.to_set() == old_log.to_set(),
                checkpoints_covered(old(self).checkpoints@, old_log),
                stamp_covers(self.clock@.last, old_last),
                forall|x: EventModel| #[trigger] s.take(i as int).filter(keep).contains(x) ==> stamp_covers(self.clock@.last, x.hlc),
                i <= events@.len(),
                stats.events_received == events@.len(),
                stats.entities_updated == 0 && stats.peers_synced == 0 && stats.peers_failed == 0,
                self.history@ == old_history + fresh_events(old_log, s.take(i as int).filter(keep)),
                self.entities@ == lww_apply(old_view, fresh_events(old_log, s.take(i as int).filter(keep))),
                updated == lww_changes(old_view, fresh_events(old_log, s.take(i as int).filter(keep))),
                updated <= i,
                forall|x: EventModel| #[trigger] self.events@.events.contains(x) <==> old_log.contains(x) || fresh_events(old_log, s.take(i as int).filter(keep)).contains(x),
                forall|id: EventId| #[trigger] has_id(self.events@.events, id) <==> has_id(old_log, id) || has_id(fresh_events(old_log, s.take(i as int).filter(keep)), id),
                forall|x: EventModel| #[trigger] s.take(i as int).filter(keep).contains(x) ==> has_id(self.events@.events, x.id),
            decreases events.len() - i,
        {
            let e = &events[i];
            let ghost acc0 = s.take(i as int).filter(keep);
            let ghost f0 = fresh_events(old_log, acc0);
            proof {
                assert(s.take(i + 1) == s.take(i as int).push(s[i as int]));
                s.take(i as int).lemma_filter_push(s[i as int], keep);
                assert(s[i as int] == e@);
            }
            let ghost last0 = self.clock@;
            let stamped = self.clock.receive_at(e.hlc, physical);
            if stamped.is_ok() {
                let ghost acc1 = acc0.push(e@);
                proof {
                    lemma_receive_covers(last0, e.hlc, physical);
                    crate::hlc::lemma_stamp_covers_transitive(old_last, last0.last, self.clock@.last);
                    assert forall|x: EventModel| #[trigger] acc1.contains(x) implies stamp_covers(self.clock@.last, x.hlc) by {
                        if x != e@ {
                            let k = choose|k: int| 0 <= k < acc1.len() && acc1[k] == x;
                            assert(acc0[k] == x);
                            assert(acc0.contains(x));
                            crate::hlc::lemma_stamp_covers_transitive(x.hlc, last0.last, self.clock@.last);
                        }
                    }
                    assert(acc1.drop_last() == acc0);
                    assert(acc1.last() == e@);
                }
                let ghost log0 = self.events@.events;
                let ghost view0 = self.entities@;
                let stored = self.events.append(e.duplicate());
                let is_new = match stored {
                    Ok(b) => b,
                    Err(_) => false,
                };
                if is_new {
                    let ghost f1 = f0.push(e@);
                    proof {
                        assert(fresh_events(old_log, acc1) == f1);
                        let p = choose|p: int| 0 <= p <= log0.len() && self.events@.events == log0.insert(p, e@);
                        lemma_insert_contains(log0, p, e@);
                        assert forall|id: EventId| #[trigger] has_id(self.events@.events, id) <==> has_id(old_log, id) || has_id(f1, id) by {
                            lemma_has_id_insert(log0, p, e@, id);
                            lemma_has_id_insert(f0, f0.len() as int, e@, id);
                            assert(f0.insert(f0.len() as int, e@) =~= f1);
                        }
                        assert forall|x: EventModel| #[trigger] self.events@.events.contains(x) <==> old_log.contains(x) || f1.contains(x) by {
                            lemma_insert_contains(f0, f0.len() as int, e@);
                            assert(f0.insert(f0.len() as int, e@) =~= f1);
                        }
                        assert forall|x: EventModel| #[trigger] acc1.contains(x) implies has_id(self.events@.events, x.id) by {
                            lemma_has_id_insert(log0, p, e@, x.id);
                            if x != e@ {
                                let k = choose|k: int| 0 <= k < acc1.len() && acc1[k] == x;
                                assert(acc0[k] == x);
                                assert(acc0.contains(x));
                            }
                        }
                        assert(f1.drop_last() == f0);
                        assert(f1.last() == e@);
                    }
                    let entity = Entity::from_event(e);
                    let replace = match self.entities.get(e.entity_id) {
                        Ok(Some(existing)) => existing.hlc.is_before(&e.hlc),
                        _ => true,
                    };
                    if replace {
                        let _ = self.entities.upsert(entity);
                        updated = updated + 1;
                    }
                    let ghost h = self.history@;
                    self.history = Ghost(h.push(e@));
                    proof {
                        assert(replace == replaces(view0, entity_of(e@)));
                        assert(old_history + f1 =~= (old_history + f0).push(e@));
                    }
                } else {
                    proof {
                        assert(has_id(log0, e.id));
                        assert(fresh_events(old_log, acc1) == f0);
                        assert forall|x: EventModel| #[trigger] acc1.contains(x) implies has_id(self.events@.events, x.id) by {
                            if x != e@ {
                                let k = choose|k: int| 0 <= k < acc1.len() && acc1[k] == x;
                                assert(acc0[k] == x);
                                assert(acc0.contains(x));
                            }
                        }
                    }
                }
            } else {
                proof {
                    assert(!keep(e@));
                }
            }
            i = i + 1;
        }
        proof {
            assert(s.take(events@.len() as int) == s);
        }
        let ghost acc = s.filter(keep);
        let ghost fresh = fresh_events(old_log, acc);
        let mut checkpoint = match self.checkpoints.get_checkpoint(peer) {
            Ok(c) => c,
            Err(_) => crate::storage::ReplicationCheckpoint::new(),
        };
        let ghost c0 = checkpoint@;
        let logged = match self.events.get_all_events() {
            Ok(v) => v,
            Err(_) => Vec::new(),
        };
        CheckpointManager::update_contiguous(&mut checkpoint, peer, logged.as_slice());
        let _ = self.checkpoints.save_checkpoint(peer, checkpoint);
        proof {
            let log = self.events@.events;
            assert forall|x: EventModel| #[trigger] old_log.contains(x) implies log.contains(x) by {}
            lemma_covered_grows(old(self).checkpoints@, old_log, log);
            crate::checkpoint::lemma_update_contiguous_stops_at_gap(c0, peer, log);
            let ck = self.checkpoints@;
            assert forall|p: u64, k: int| 1 <= k <= checkpoint_of(ck, NodeId(p)) implies #[trigger] has_seq(log, NodeId(p), k) by {
                if p == peer.0 {
                    assert(checkpoint_of(ck, NodeId(p)) == value_or_zero(checkpoint_after(c0, peer, log), peer.0));
                    if k <= value_or_zero(c0, peer.0) {
                        assert(checkpoint_of(old(self).checkpoints@, NodeId(p)) == value_or_zero(c0, peer.0));
                    }
                } else {
                    assert(checkpoint_of(ck, NodeId(p)) == checkpoint_of(old(self).checkpoints@, NodeId(p)));
                }
            }
            lemma_lww_apply_append(Map::empty(), old_history, fresh);
            assert forall|x: EventModel| #[trigger] self.history@.to_set().contains(x) == log.to_set().contains(x) by {
                assert(self.history@.to_set().contains(x) == self.history@.contains(x));
                assert(old_history.to_set().contains(x) == old_history.contains(x));
                assert(old_log.to_set().contains(x) == old_log.contains(x));
                assert(log.to_set().contains(x) == log.contains(x));
                if self.history@.contains(x) {
                    let k = choose|k: int| 0 <= k < self.history@.len() && self.history@[k] == x;
                    if k < old_history.len() {
                        assert(old_history[k] == x);
                    } else {
                        assert(fresh[k - old_history.len()] == x);
                        assert(fresh.contains(x));
                    }
                }
                if old_history.contains(x) {
                    let k = choose|k: int| 0 <= k < old_history.len() && old_history[k] == x;
                    assert(self.history@[k] == x);
                }
                if fresh.contains(x) {
                    let k = choose|k: int| 0 <= k < fresh.len() && fresh[k] == x;
                    assert(self.history@[old_history.len() + k] == x);
                }
            }
            assert(self.history@.to_set() =~= log.to_set());
        }
        stats.entities_updated = updated;
        stats
    }

    /// Apply a peer's response at the current physical time.
    pub fn apply_pull_response(&mut self, peer: NodeId, response: &PullResponse) -> (r: SyncStats)
        requires
            old(self).wf(),
        ensures
            final(self).wf(),
            exists|physical: u64| pull_outcome(*old(self), *final(self), peer, event_views(response.events@), physical, r),
    {
        let physical = crate::hlc::system_time_millis();
        let r = self.apply_pull_response_at(peer, response.events.as_slice(), physical);
        assert(pull_outcome(*old(self), *self, peer, event_views(response.events@), physical, r));
        r
    }

    /// Delete the marker whose UUID is written in `id`, at the current time.
    /// Text that is no UUID is refused as such, and nothing changes.
    pub fn delete_marker(&mut self, id: &str) -> (r: Result<EventId, CoreError>)
        requires
            old(self).wf(),
        ensures
            final(self).wf(),
            match uuid_parsed(id@) {
                None => r is Err && r->Err_0 is InvalidMarkerId && r->Err_0->InvalidMarkerId_0@ == id@
                    && *final(self) == *old(self),
                Some(v) => exists|physical: u64| delete_outcome(*old(self), *final(self), EntityId(v), physical, r),
            },
    {
        match parse_entity_id(id) {
            Some(entity_id) => {
                let physical = crate::hlc::system_time_millis();
                let r = self.delete_marker_at(entity_id, physical);
                assert(delete_outcome(*old(self), *self, entity_id, physical, r));
                r
            },
            None => Err(CoreError::InvalidMarkerId(String::from_str(id))),
        }
    }
}

} // verus!
