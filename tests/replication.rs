use fylge::{
    respond_to_pull, CheckpointManager, CoreError, Degrees, EntityId, EntityMaterializer, Entity,
    Event, EventId, EventsQuery, Hlc, HlcTimestamp, Icon, InMemoryEventStore, NodeId, Payload,
    PeerConfig, PullRequest, PullResponse, Replica, ReplicationCheckpoint, StorageError,
    SyncStats, ValidationError, default_limit,
};

fn deg(x: f64) -> Degrees {
    Degrees(x.to_bits())
}

fn fresh_id() -> EntityId {
    EntityId(uuid::Uuid::new_v4().as_u128())
}

fn make_event(node: u64, seq: u64) -> Event {
    Event::new(
        EventId::new(NodeId(node), seq),
        fresh_id(),
        HlcTimestamp::new(1000 + seq, 0, NodeId(node)),
        Payload::new(deg(59.9), deg(10.7), "ship".to_string(), None),
    )
}

fn make_event_at(node: u64, seq: u64, wall_time: u64, entity_id: EntityId) -> Event {
    Event::new(
        EventId::new(NodeId(node), seq),
        entity_id,
        HlcTimestamp::new(wall_time, 0, NodeId(node)),
        Payload::new(deg(59.9), deg(10.7), "ship".to_string(), None),
    )
}

fn icons() -> Vec<Icon> {
    vec![Icon::new("ship", "Ship", "ship.png"), Icon::new("plane", "Plane", "plane.png")]
}

fn replica(node: u64) -> Replica {
    Replica::new(NodeId(node), icons(), Vec::new())
}

fn seqs(events: &[Event]) -> Vec<u64> {
    events.iter().map(|e| e.id.sequence).collect()
}

#[test]
fn test_update_contiguous_sequential() {
    let mut checkpoint = ReplicationCheckpoint::new();

    let events = vec![make_event(1, 1), make_event(1, 2), make_event(1, 3)];

    CheckpointManager::update_contiguous(&mut checkpoint, NodeId(1), &events);

    assert_eq!(checkpoint.last_seq_for(NodeId(1)), 3);
}

#[test]
fn test_update_contiguous_with_gap() {
    let mut checkpoint = ReplicationCheckpoint::new();

    let events = vec![make_event(1, 1), make_event(1, 2), make_event(1, 4), make_event(1, 5)];

    CheckpointManager::update_contiguous(&mut checkpoint, NodeId(1), &events);

    assert_eq!(checkpoint.last_seq_for(NodeId(1)), 2);
}

#[test]
fn test_update_contiguous_continues_from_checkpoint() {
    let mut checkpoint = ReplicationCheckpoint::new();
    checkpoint.update(NodeId(1), 5);

    let events = vec![make_event(1, 6), make_event(1, 7), make_event(1, 8)];

    CheckpointManager::update_contiguous(&mut checkpoint, NodeId(1), &events);

    assert_eq!(checkpoint.last_seq_for(NodeId(1)), 8);
}

#[test]
fn test_update_contiguous_ignores_old_events() {
    let mut checkpoint = ReplicationCheckpoint::new();
    checkpoint.update(NodeId(1), 5);

    let events = vec![make_event(1, 3), make_event(1, 4), make_event(1, 5), make_event(1, 6)];

    CheckpointManager::update_contiguous(&mut checkpoint, NodeId(1), &events);

    assert_eq!(checkpoint.last_seq_for(NodeId(1)), 6);
}

#[test]
fn test_update_contiguous_empty_events() {
    let mut checkpoint = ReplicationCheckpoint::new();
    checkpoint.update(NodeId(1), 5);

    CheckpointManager::update_contiguous(&mut checkpoint, NodeId(1), &[]);

    assert_eq!(checkpoint.last_seq_for(NodeId(1)), 5);
}

#[test]
fn update_contiguous_unordered_and_other_nodes() {
    let mut checkpoint = ReplicationCheckpoint::new();
    let events = vec![make_event(1, 3), make_event(2, 2), make_event(1, 1), make_event(2, 1), make_event(1, 2)];
    CheckpointManager::update_contiguous(&mut checkpoint, NodeId(1), &events);
    assert_eq!(checkpoint.last_seq_for(NodeId(1)), 3);
    assert_eq!(checkpoint.last_seq_for(NodeId(2)), 0);
}

#[test]
fn contiguous_checkpoint_waits_for_the_gap() {
    let mut checkpoint = ReplicationCheckpoint::new();
    let first = vec![make_event(7, 1), make_event(7, 2), make_event(7, 4), make_event(7, 5)];
    CheckpointManager::update_contiguous(&mut checkpoint, NodeId(7), &first);
    assert_eq!(checkpoint.last_seq_for(NodeId(7)), 2);
    // the same batch again changes nothing
    CheckpointManager::update_contiguous(&mut checkpoint, NodeId(7), &first);
    assert_eq!(checkpoint.last_seq_for(NodeId(7)), 2);
    // the missing event arrives together with what was already seen
    let mut second = first.clone();
    second.push(make_event(7, 3));
    CheckpointManager::update_contiguous(&mut checkpoint, NodeId(7), &second);
    assert_eq!(checkpoint.last_seq_for(NodeId(7)), 5);
}

#[test]
fn test_next_expected_seq() {
    let mut checkpoint = ReplicationCheckpoint::new();
    assert_eq!(CheckpointManager::next_expected_seq(&checkpoint, NodeId(1)), 1);

    checkpoint.update(NodeId(1), 10);
    assert_eq!(CheckpointManager::next_expected_seq(&checkpoint, NodeId(1)), 11);
}

#[test]
fn test_materialize_single_event() {
    let entity_id = fresh_id();
    let event = make_event_at(1, 1, 1000, entity_id);

    let entity = EntityMaterializer::materialize(vec![event.clone()]).unwrap();

    assert_eq!(entity.id, entity_id);
    assert_eq!(entity.hlc.wall_time, 1000);
}

#[test]
fn test_materialize_picks_latest() {
    let entity_id = fresh_id();
    let events = vec![
        make_event_at(1, 1, 1000, entity_id),
        make_event_at(1, 2, 2000, entity_id),
        make_event_at(1, 3, 1500, entity_id),
    ];

    let entity = EntityMaterializer::materialize(events).unwrap();

    assert_eq!(entity.hlc.wall_time, 2000);
}

#[test]
fn test_materialize_tiebreak_by_node_id() {
    let entity_id = fresh_id();
    let events = vec![make_event_at(1, 1, 1000, entity_id), make_event_at(2, 1, 1000, entity_id)];

    let entity = EntityMaterializer::materialize(events).unwrap();

    assert_eq!(entity.source_event.node_id, NodeId(2));
}

#[test]
fn test_materialize_empty_returns_none() {
    let entity = EntityMaterializer::materialize(Vec::<Event>::new());
    assert!(entity.is_none());
}

#[test]
fn materialize_ignores_delivery_order() {
    let id = fresh_id();
    let a = make_event_at(1, 1, 1000, id);
    let b = make_event_at(2, 1, 3000, id);
    let c = Event::new(EventId::new(NodeId(3), 1), id, HlcTimestamp::new(2000, 0, NodeId(3)), Payload::tombstone());
    let orders = vec![
        vec![a.clone(), b.clone(), c.clone()],
        vec![c.clone(), b.clone(), a.clone()],
        vec![b.clone(), a.clone(), c.clone(), b.clone()],
    ];
    for order in orders {
        let e = EntityMaterializer::materialize_ref(&order).unwrap();
        assert_eq!(e, Entity::from_event(&b));
    }
}

#[test]
fn test_should_replace() {
    let entity_id = fresh_id();
    let event1 = make_event_at(1, 1, 1000, entity_id);
    let entity = Entity::from_event(&event1);

    let newer = make_event_at(1, 2, 2000, entity_id);
    let older = make_event_at(1, 3, 500, entity_id);

    assert!(EntityMaterializer::should_replace(&entity, &newer));
    assert!(!EntityMaterializer::should_replace(&entity, &older));
}

#[test]
fn test_pull_request() {
    let req = PullRequest::new(NodeId(1), NodeId(2), 100).with_limit(50);

    assert_eq!(req.from_node, NodeId(1));
    assert_eq!(req.target_node, NodeId(2));
    assert_eq!(req.since_seq, 100);
    assert_eq!(req.limit, Some(50));
}

#[test]
fn test_pull_response_empty() {
    let resp = PullResponse::empty(NodeId(1));

    assert!(resp.events.is_empty());
    assert!(!resp.has_more);
}

#[test]
fn respond_to_pull_honours_limit() {
    let mut log = InMemoryEventStore::new();
    for s in 1..=5u64 {
        log.append(make_event(4, s)).unwrap();
    }
    log.append(make_event(5, 1)).unwrap();
    let query = EventsQuery { since_seq: 1, limit: 3 };
    let resp = respond_to_pull(&log, NodeId(4), query);
    assert_eq!(resp.from_node, NodeId(4));
    assert_eq!(seqs(&resp.events), vec![2, 3, 4]);
    assert!(resp.has_more);
    let resp = respond_to_pull(&log, NodeId(4), EventsQuery { since_seq: 2, limit: 3 });
    assert_eq!(seqs(&resp.events), vec![3, 4, 5]);
    assert!(!resp.has_more);
    assert_eq!(default_limit(), 100);
    assert_eq!(EventsQuery::new(), EventsQuery { since_seq: 0, limit: 100 });
}

#[test]
fn test_sync_from_peer() {
    let mut node = Replica::new(
        NodeId(1),
        icons(),
        vec![PeerConfig { node_id: NodeId(2), endpoint: "http://localhost:3002".to_string(), pull_interval_secs: 5 }],
    );
    let entity_id = fresh_id();
    let peer_events = vec![make_event_at(2, 1, 1001, entity_id), make_event_at(2, 2, 1002, entity_id)];

    let request = node.pull_request(NodeId(2));
    assert_eq!(request.since_seq, 0);
    let response = PullResponse::new(NodeId(2), peer_events, false);
    let peer_stats = node.apply_pull_response_at(NodeId(2), &response.events, 5000);
    let mut stats = SyncStats::new();
    stats.absorb(&peer_stats);

    assert_eq!(stats.events_received, 2);
    assert_eq!(stats.entities_updated, 2);
    assert_eq!(stats.peers_synced, 1);

    let entity = node.entities.get(entity_id).unwrap().unwrap();
    assert_eq!(entity.hlc.wall_time, 1002);

    let checkpoint = node.checkpoints.get_checkpoint(NodeId(2)).unwrap();
    assert_eq!(checkpoint.last_seq_for(NodeId(2)), 2);
    assert_eq!(node.pull_request(NodeId(2)).since_seq, 2);
}

#[test]
fn sync_stats_counts_failures() {
    let mut stats = SyncStats::new();
    stats.record_failure();
    stats.record_failure();
    assert_eq!(stats.peers_failed, 2);
    assert_eq!(stats.peers_synced, 0);
}

#[test]
fn single_node_create() {
    let mut node = replica(1);
    let now = 1_700_000_000_000;
    let entity_id = fresh_id();
    let id = node
        .create_marker_at(deg(59.9), deg(10.7), "ship".to_string(), None, entity_id, now)
        .unwrap();
    assert_eq!(id, EventId::new(NodeId(1), 1));
    let events = node.events.get_all_events().unwrap();
    assert_eq!(events.len(), 1);
    assert_eq!(events[0].id, EventId::new(NodeId(1), 1));
    assert_eq!(events[0].hlc, HlcTimestamp::new(now, 0, NodeId(1)));
    let entity = node.entities.get(entity_id).unwrap().unwrap();
    assert!(!entity.deleted);
    assert_eq!(entity.source_event, id);
}

#[test]
fn create_marker_with_current_time() {
    let mut node = replica(1);
    let id = node.create_marker(deg(59.9), deg(10.7), "ship".to_string(), Some("Oslo".to_string())).unwrap();
    assert_eq!(id, EventId::new(NodeId(1), 1));
    let all = node.entities.get_all().unwrap();
    assert_eq!(all.len(), 1);
    assert_eq!(all[0].label, Some("Oslo".to_string()));
}

#[test]
fn create_marker_rejects_bad_input_before_the_clock() {
    let mut node = replica(1);
    let r = node.create_marker_at(deg(91.0), deg(0.0), "ship".to_string(), None, fresh_id(), 10);
    assert_eq!(r, Err(CoreError::Validation(ValidationError::InvalidLatitude(deg(91.0)))));
    let r = node.create_marker_at(deg(1.0), deg(0.0), "boat".to_string(), None, fresh_id(), 10);
    assert_eq!(r, Err(CoreError::Validation(ValidationError::IconNotFound("boat".to_string()))));
    assert_eq!(node.clock.last(), HlcTimestamp::zero(NodeId(1)));
    assert!(node.events.get_all_events().unwrap().is_empty());
}

#[test]
fn create_marker_reports_clock_drift() {
    let mut node = Replica::with_clock(NodeId(1), Hlc::with_max_drift(NodeId(1), 10), icons(), Vec::new());
    node.create_marker_at(deg(1.0), deg(1.0), "ship".to_string(), None, fresh_id(), 1000).unwrap();
    let r = node.create_marker_at(deg(1.0), deg(1.0), "ship".to_string(), None, fresh_id(), 500);
    assert_eq!(r, Err(CoreError::Clock(fylge::ClockError::ExcessiveDrift(500))));
    assert_eq!(node.events.get_all_events().unwrap().len(), 1);
}

#[test]
fn delete_marker_tombstones_and_refuses_twice() {
    let mut node = replica(1);
    let entity_id = fresh_id();
    node.create_marker_at(deg(1.0), deg(2.0), "plane".to_string(), None, entity_id, 100).unwrap();
    let id = node.delete_marker_at(entity_id, 200).unwrap();
    assert_eq!(id, EventId::new(NodeId(1), 2));
    let e = node.entities.get(entity_id).unwrap().unwrap();
    assert!(e.deleted);
    assert_eq!(e.hlc, HlcTimestamp::new(200, 0, NodeId(1)));
    assert_eq!(
        node.delete_marker_at(entity_id, 300),
        Err(CoreError::Storage(StorageError::EntityNotFound(entity_id)))
    );
    let unknown = fresh_id();
    assert_eq!(
        node.delete_marker_at(unknown, 300),
        Err(CoreError::Storage(StorageError::EntityNotFound(unknown)))
    );
}

#[test]
fn delete_marker_by_text() {
    let mut node = replica(1);
    let uuid = uuid::Uuid::new_v4();
    let entity_id = EntityId(uuid.as_u128());
    node.create_marker_at(deg(1.0), deg(2.0), "plane".to_string(), None, entity_id, 100).unwrap();
    assert_eq!(node.delete_marker("not-a-uuid"), Err(CoreError::InvalidMarkerId("not-a-uuid".to_string())));
    assert_eq!(node.delete_marker(&uuid.to_string()).unwrap(), EventId::new(NodeId(1), 2));
    assert!(node.entities.get(entity_id).unwrap().unwrap().deleted);
}

#[test]
fn idempotent_replay() {
    let mut node = replica(1);
    let event = make_event_at(2, 1, 1000, fresh_id());
    assert!(node.events.append(event.clone()).unwrap());
    assert!(!node.events.append(event.clone()).unwrap());

    let mut other = replica(1);
    let batch = vec![event.clone()];
    let first = other.apply_pull_response_at(NodeId(2), &batch, 2000);
    let view_after_first = other.entities.get_all().unwrap();
    let ckpt_after_first = other.checkpoints.get_checkpoint(NodeId(2)).unwrap().last_seq_for(NodeId(2));
    let second = other.apply_pull_response_at(NodeId(2), &batch, 2000);
    assert_eq!(first.entities_updated, 1);
    assert_eq!(second.entities_updated, 0);
    assert_eq!(other.entities.get_all().unwrap(), view_after_first);
    assert_eq!(ckpt_after_first, 1);
    assert_eq!(other.checkpoints.get_checkpoint(NodeId(2)).unwrap().last_seq_for(NodeId(2)), 1);
    assert_eq!(other.events.get_all_events().unwrap().len(), 1);
}

#[test]
fn lww_concurrent_writers() {
    let entity_id = fresh_id();
    let mut a = replica(1);
    let mut b = replica(2);
    a.create_marker_at(deg(1.0), deg(1.0), "ship".to_string(), Some("from one".to_string()), entity_id, 1000).unwrap();
    b.create_marker_at(deg(2.0), deg(2.0), "plane".to_string(), Some("from two".to_string()), entity_id, 1000).unwrap();
    assert_eq!(a.entities.get(entity_id).unwrap().unwrap().hlc, HlcTimestamp::new(1000, 0, NodeId(1)));
    assert_eq!(b.entities.get(entity_id).unwrap().unwrap().hlc, HlcTimestamp::new(1000, 0, NodeId(2)));
    let from_a = respond_to_pull(&a.events, NodeId(1), EventsQuery::new());
    let from_b = respond_to_pull(&b.events, NodeId(2), EventsQuery::new());
    a.apply_pull_response_at(NodeId(2), &from_b.events, 1000);
    b.apply_pull_response_at(NodeId(1), &from_a.events, 1000);
    let va = a.entities.get(entity_id).unwrap().unwrap();
    let vb = b.entities.get(entity_id).unwrap().unwrap();
    assert_eq!(va, vb);
    assert_eq!(va.label, Some("from two".to_string()));
    assert_eq!(va.source_event, EventId::new(NodeId(2), 1));
}

#[test]
fn tombstone_dominance() {
    let id = fresh_id();
    let mut node = replica(5);
    let up = make_event_at(1, 1, 1000, id);
    let tomb = Event::new(EventId::new(NodeId(1), 2), id, HlcTimestamp::new(1001, 0, NodeId(1)), Payload::tombstone());
    node.apply_pull_response_at(NodeId(1), &[up, tomb], 5000);
    assert!(node.entities.get(id).unwrap().unwrap().deleted);
    let late = make_event_at(2, 1, 999, id);
    node.apply_pull_response_at(NodeId(2), &[late], 5000);
    assert!(node.entities.get(id).unwrap().unwrap().deleted);
    let later = make_event_at(2, 2, 1002, id);
    node.apply_pull_response_at(NodeId(2), &[later], 5000);
    let e = node.entities.get(id).unwrap().unwrap();
    assert!(!e.deleted);
    assert_eq!(e.hlc, HlcTimestamp::new(1002, 0, NodeId(2)));
}

#[test]
fn contiguous_checkpoint_through_replica() {
    let mut node = replica(1);
    let batch: Vec<Event> = [1u64, 2, 4, 5].iter().map(|s| make_event(7, *s)).collect();
    node.apply_pull_response_at(NodeId(7), &batch, 10_000);
    assert_eq!(node.pull_request(NodeId(7)).since_seq, 2);
    // only the missing event arrives; 4 and 5 are already in the log
    node.apply_pull_response_at(NodeId(7), &[make_event(7, 3)], 10_000);
    assert_eq!(node.pull_request(NodeId(7)).since_seq, 5);
    // the same event again changes nothing
    let before = node.events.get_all_events().unwrap();
    node.apply_pull_response_at(NodeId(7), &[make_event(7, 3)], 10_000);
    assert_eq!(node.pull_request(NodeId(7)).since_seq, 5);
    assert_eq!(node.events.get_all_events().unwrap().len(), before.len());
}

#[test]
fn resent_id_with_other_content_is_ignored() {
    let mut node = replica(1);
    let id = fresh_id();
    let first = make_event_at(2, 1, 1000, id);
    node.apply_pull_response_at(NodeId(2), &[first.clone()], 5000);
    let mut forged = make_event_at(2, 1, 2000, id);
    forged.payload = Payload::tombstone();
    let stats = node.apply_pull_response_at(NodeId(2), &[forged], 5000);
    assert_eq!(stats.entities_updated, 0);
    assert_eq!(node.entities.get(id).unwrap().unwrap(), Entity::from_event(&first));
    assert_eq!(node.events.get_all_events().unwrap(), vec![first]);
}

#[test]
fn remote_event_too_far_ahead_is_skipped() {
    let mut node = Replica::with_clock(NodeId(1), Hlc::with_max_drift(NodeId(1), 100), icons(), Vec::new());
    let ok = make_event_at(2, 1, 1000, fresh_id());
    let ahead = make_event_at(2, 2, 5000, fresh_id());
    let stats = node.apply_pull_response_at(NodeId(2), &[ok, ahead], 1000);
    assert_eq!(stats.events_received, 2);
    assert_eq!(stats.entities_updated, 1);
    assert_eq!(node.events.get_all_events().unwrap().len(), 1);
    assert_eq!(node.pull_request(NodeId(2)).since_seq, 1);
    // the clock moved past the accepted remote stamp
    assert!(node.clock.last() > HlcTimestamp::new(1000, 0, NodeId(2)));
}

#[test]
fn replicas_converge_after_mutual_replication() {
    let mut a = replica(1);
    let mut b = replica(2);
    let shared = fresh_id();
    a.create_marker_at(deg(1.0), deg(1.0), "ship".to_string(), None, shared, 100).unwrap();
    b.create_marker_at(deg(2.0), deg(2.0), "plane".to_string(), None, fresh_id(), 100).unwrap();
    a.create_marker_at(deg(3.0), deg(3.0), "ship".to_string(), None, fresh_id(), 150).unwrap();
    for _ in 0..2 {
        let from_a = respond_to_pull(&a.events, NodeId(1), EventsQuery { since_seq: b.pull_request(NodeId(1)).since_seq, limit: 100 });
        b.apply_pull_response_at(NodeId(1), &from_a.events, 200);
        b.delete_marker_at(shared, 300).ok();
        let from_b = respond_to_pull(&b.events, NodeId(2), EventsQuery { since_seq: a.pull_request(NodeId(2)).since_seq, limit: 100 });
        a.apply_pull_response_at(NodeId(2), &from_b.events, 300);
    }
    let from_a = respond_to_pull(&a.events, NodeId(1), EventsQuery { since_seq: b.pull_request(NodeId(1)).since_seq, limit: 100 });
    b.apply_pull_response_at(NodeId(1), &from_a.events, 400);
    let mut va = a.entities.get_all().unwrap();
    let mut vb = b.entities.get_all().unwrap();
    va.sort_by_key(|e| e.id);
    vb.sort_by_key(|e| e.id);
    assert_eq!(va.len(), 3);
    assert_eq!(va, vb);
    assert!(a.entities.get(shared).unwrap().unwrap().deleted);
}

#[test]
fn local_stamps_follow_received_ones() {
    let mut node = replica(1);
    let remote = Event::new(
        EventId::new(NodeId(2), 1),
        fresh_id(),
        HlcTimestamp::new(5000, 7, NodeId(2)),
        Payload::tombstone(),
    );
    node.apply_pull_response_at(NodeId(2), &[remote.clone()], 4000);
    assert_eq!(node.clock.last(), HlcTimestamp::new(5000, 8, NodeId(1)));
    let entity_id = fresh_id();
    node.create_marker_at(deg(1.0), deg(1.0), "ship".to_string(), None, entity_id, 4000).unwrap();
    let stamp = node.entities.get(entity_id).unwrap().unwrap().hlc;
    assert!(stamp > remote.hlc);
    assert_eq!(stamp, HlcTimestamp::new(5000, 9, NodeId(1)));
}
