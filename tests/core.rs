use fylge::config::{parse_peers, ConfigError};
use fylge::{
    Degrees, EntityId, Entity, Event, EventId, Hlc, HlcTimestamp, Icon, NodeId, Payload,
    ValidationError, Validator, ClockError,
};

fn deg(x: f64) -> Degrees {
    Degrees(x.to_bits())
}

fn now_ms() -> u64 {
    std::time::SystemTime::now()
        .duration_since(std::time::UNIX_EPOCH)
        .unwrap()
        .as_millis() as u64
}

fn fresh_id() -> EntityId {
    EntityId(uuid::Uuid::new_v4().as_u128())
}

fn make_event(node: u64, seq: u64, wall_time: u64, counter: u32) -> Event {
    Event::new(
        EventId::new(NodeId(node), seq),
        fresh_id(),
        HlcTimestamp::new(wall_time, counter, NodeId(node)),
        Payload::new(deg(59.9), deg(10.7), "ship".to_string(), None),
    )
}

#[test]
fn test_hlc_timestamp_ordering() {
    let t1 = HlcTimestamp::new(100, 0, NodeId(1));
    let t2 = HlcTimestamp::new(100, 1, NodeId(1));
    let t3 = HlcTimestamp::new(101, 0, NodeId(1));

    assert!(t1 < t2);
    assert!(t2 < t3);
}

#[test]
fn test_hlc_timestamp_node_tiebreak() {
    let t1 = HlcTimestamp::new(100, 0, NodeId(1));
    let t2 = HlcTimestamp::new(100, 0, NodeId(2));

    assert!(t1 < t2);
}

#[test]
fn test_hlc_now_increments() {
    let mut hlc = Hlc::new(NodeId(1));

    let t1 = hlc.now().unwrap();
    let t2 = hlc.now().unwrap();

    assert!(t1 < t2);
}

#[test]
fn test_hlc_receive_advances_clock() {
    let mut hlc = Hlc::new(NodeId(1));

    let remote = HlcTimestamp::new(now_ms() + 1000, 5, NodeId(2));

    let local = hlc.receive(remote).unwrap();

    assert!(local > remote);
}

#[test]
fn test_hlc_receive_rejects_excessive_drift() {
    let mut hlc = Hlc::with_max_drift(NodeId(1), 1000);

    let remote = HlcTimestamp::new(now_ms() + 10_000, 0, NodeId(2));

    assert!(hlc.receive(remote).is_err());
}

#[test]
fn hlc_is_before_matches_order() {
    let a = HlcTimestamp::new(100, 0, NodeId(2));
    let b = HlcTimestamp::new(100, 1, NodeId(1));
    assert!(a.is_before(&b));
    assert!(!b.is_before(&a));
    assert!(!a.is_before(&a));
    assert_eq!(HlcTimestamp::zero(NodeId(3)), HlcTimestamp::new(0, 0, NodeId(3)));
}

#[test]
fn hlc_now_at_cases() {
    let mut hlc = Hlc::new(NodeId(1));
    assert_eq!(hlc.now_at(1000), Ok(HlcTimestamp::new(1000, 0, NodeId(1))));
    assert_eq!(hlc.now_at(1000), Ok(HlcTimestamp::new(1000, 1, NodeId(1))));
    assert_eq!(hlc.now_at(900), Ok(HlcTimestamp::new(1000, 2, NodeId(1))));
    assert_eq!(hlc.now_at(1001), Ok(HlcTimestamp::new(1001, 0, NodeId(1))));
    assert_eq!(hlc.last(), HlcTimestamp::new(1001, 0, NodeId(1)));
    assert_eq!(hlc.node_id(), NodeId(1));
}

#[test]
fn hlc_now_at_rejects_excessive_drift() {
    let mut hlc = Hlc::with_max_drift(NodeId(1), 100);
    hlc.now_at(10_000).unwrap();
    assert_eq!(hlc.now_at(9_899), Err(ClockError::ExcessiveDrift(101)));
    assert_eq!(hlc.last(), HlcTimestamp::new(10_000, 0, NodeId(1)));
    assert_eq!(hlc.now_at(9_900), Ok(HlcTimestamp::new(10_000, 1, NodeId(1))));
}

#[test]
fn hlc_now_at_saturates_counter() {
    let mut hlc = Hlc::new(NodeId(1));
    hlc.receive_at(HlcTimestamp::new(500, u32::MAX, NodeId(2)), 400).unwrap();
    assert_eq!(hlc.last(), HlcTimestamp::new(500, u32::MAX, NodeId(1)));
    assert_eq!(hlc.now_at(400), Ok(HlcTimestamp::new(500, u32::MAX, NodeId(1))));
}

#[test]
fn hlc_receive_at_cases() {
    // physical time ahead of both
    let mut hlc = Hlc::new(NodeId(1));
    assert_eq!(
        hlc.receive_at(HlcTimestamp::new(500, 7, NodeId(2)), 1000),
        Ok(HlcTimestamp::new(1000, 0, NodeId(1)))
    );
    // last and remote share the maximal wall time
    assert_eq!(
        hlc.receive_at(HlcTimestamp::new(1000, 4, NodeId(2)), 900),
        Ok(HlcTimestamp::new(1000, 5, NodeId(1)))
    );
    // last ahead of remote
    assert_eq!(
        hlc.receive_at(HlcTimestamp::new(800, 40, NodeId(2)), 900),
        Ok(HlcTimestamp::new(1000, 6, NodeId(1)))
    );
    // remote ahead
    assert_eq!(
        hlc.receive_at(HlcTimestamp::new(1200, 3, NodeId(2)), 1100),
        Ok(HlcTimestamp::new(1200, 4, NodeId(1)))
    );
}

#[test]
fn drift_rejection_leaves_clock_unchanged() {
    let max_drift = 60_000;
    let mut hlc = Hlc::with_max_drift(NodeId(1), max_drift);
    let now = 1_000_000;
    hlc.now_at(now).unwrap();
    let before = hlc.last();
    let remote = HlcTimestamp::new(now + 2 * max_drift, 0, NodeId(2));
    assert_eq!(hlc.receive_at(remote, now), Err(ClockError::RemoteClockAhead(2 * max_drift)));
    assert_eq!(hlc.last(), before);
}

#[test]
fn clock_timestamps_strictly_increase_over_mixed_calls() {
    let mut hlc = Hlc::new(NodeId(3));
    let mut seen = Vec::new();
    seen.push(hlc.now_at(100).unwrap());
    seen.push(hlc.receive_at(HlcTimestamp::new(150, 9, NodeId(1)), 120).unwrap());
    seen.push(hlc.now_at(90).unwrap());
    seen.push(hlc.receive_at(HlcTimestamp::new(20, 0, NodeId(9)), 130).unwrap());
    seen.push(hlc.now_at(200).unwrap());
    for w in seen.windows(2) {
        assert!(w[0] < w[1]);
    }
}

#[test]
fn test_icon_creation() {
    let icon = Icon::new("ship", "Skip", "ship.png");

    assert_eq!(icon.id, "ship");
    assert_eq!(icon.name, "Skip");
    assert_eq!(icon.filename, "ship.png");
}

#[test]
fn test_node_id_ordering() {
    let n1 = NodeId(1);
    let n2 = NodeId(2);
    assert!(n1 < n2);
}

#[test]
fn test_node_id_display() {
    let n = NodeId(42);
    assert_eq!(n.to_string(), "node-42");
}

#[test]
fn test_event_id_display() {
    let id = EventId::new(NodeId(1), 42);
    assert_eq!(id.to_string(), "node-1:42");
}

#[test]
fn event_id_display_large_numbers() {
    let id = EventId::new(NodeId(0), u64::MAX);
    assert_eq!(id.to_string(), "node-0:18446744073709551615");
}

#[test]
fn test_payload_creation() {
    let payload = Payload::new(deg(59.9), deg(10.7), "ship".to_string(), Some("Oslo".to_string()));

    let data = payload.marker_data().expect("Expected Upsert payload");
    assert_eq!(f64::from_bits(data.lat.0), 59.9);
    assert_eq!(f64::from_bits(data.lon.0), 10.7);
    assert_eq!(data.icon_id, "ship");
    assert_eq!(data.label, Some("Oslo".to_string()));
}

#[test]
fn test_tombstone_payload() {
    let payload = Payload::tombstone();
    assert!(payload.is_tombstone());
    assert!(payload.marker_data().is_none());
}

#[test]
fn test_entity_from_event() {
    let event = make_event(1, 1, 1000, 0);
    let entity = Entity::from_event(&event);

    assert_eq!(entity.id, event.entity_id);
    assert_eq!(f64::from_bits(entity.lat.0), 59.9);
    assert_eq!(f64::from_bits(entity.lon.0), 10.7);
    assert_eq!(entity.icon_id, "ship");
    assert_eq!(entity.source_event, event.id);
    assert!(!entity.deleted);
}

#[test]
fn test_entity_from_tombstone_event() {
    let entity_id = fresh_id();
    let event = Event::new(
        EventId::new(NodeId(1), 1),
        entity_id,
        HlcTimestamp::new(1000, 0, NodeId(1)),
        Payload::tombstone(),
    );
    let entity = Entity::from_event(&event);

    assert_eq!(entity.id, entity_id);
    assert!(entity.deleted);
    assert_eq!(entity.source_event, event.id);
    assert_eq!(entity.lat, Degrees(0));
    assert_eq!(entity.icon_id, "");
    assert_eq!(entity.label, None);
}

#[test]
fn test_should_replace_with() {
    let event1 = make_event(1, 1, 1000, 0);
    let entity = Entity::from_event(&event1);

    let event2 = Event::new(
        EventId::new(NodeId(1), 2),
        event1.entity_id,
        HlcTimestamp::new(1001, 0, NodeId(1)),
        Payload::new(deg(60.0), deg(11.0), "plane".to_string(), None),
    );
    assert!(entity.should_replace_with(&event2));

    let event3 = Event::new(
        EventId::new(NodeId(2), 1),
        event1.entity_id,
        HlcTimestamp::new(999, 0, NodeId(2)),
        Payload::new(deg(60.0), deg(11.0), "plane".to_string(), None),
    );
    assert!(!entity.should_replace_with(&event3));
}

#[test]
fn test_tombstone_replaces_entity() {
    let entity_id = fresh_id();
    let event1 = Event::new(
        EventId::new(NodeId(1), 1),
        entity_id,
        HlcTimestamp::new(1000, 0, NodeId(1)),
        Payload::new(deg(59.9), deg(10.7), "ship".to_string(), None),
    );
    let entity = Entity::from_event(&event1);
    assert!(!entity.deleted);

    let tombstone = Event::new(
        EventId::new(NodeId(1), 2),
        entity_id,
        HlcTimestamp::new(1001, 0, NodeId(1)),
        Payload::tombstone(),
    );
    assert!(entity.should_replace_with(&tombstone));
}

#[test]
fn test_valid_latitude() {
    assert!(Validator::validate_latitude(deg(0.0)).is_ok());
    assert!(Validator::validate_latitude(deg(90.0)).is_ok());
    assert!(Validator::validate_latitude(deg(-90.0)).is_ok());
    assert!(Validator::validate_latitude(deg(59.9)).is_ok());
}

#[test]
fn test_invalid_latitude() {
    assert!(Validator::validate_latitude(deg(90.1)).is_err());
    assert!(Validator::validate_latitude(deg(-90.1)).is_err());
    assert!(Validator::validate_latitude(deg(f64::NAN)).is_err());
    assert!(Validator::validate_latitude(deg(f64::INFINITY)).is_err());
}

#[test]
fn test_valid_longitude() {
    assert!(Validator::validate_longitude(deg(0.0)).is_ok());
    assert!(Validator::validate_longitude(deg(180.0)).is_ok());
    assert!(Validator::validate_longitude(deg(-180.0)).is_ok());
    assert!(Validator::validate_longitude(deg(10.7)).is_ok());
}

#[test]
fn test_invalid_longitude() {
    assert!(Validator::validate_longitude(deg(180.1)).is_err());
    assert!(Validator::validate_longitude(deg(-180.1)).is_err());
    assert!(Validator::validate_longitude(deg(f64::NAN)).is_err());
}

#[test]
fn angle_bounds_edge_values() {
    assert!(Validator::validate_latitude(deg(-0.0)).is_ok());
    assert!(Validator::validate_latitude(deg(f64::NEG_INFINITY)).is_err());
    assert!(Validator::validate_latitude(deg(f64::MIN_POSITIVE)).is_ok());
    assert!(Validator::validate_latitude(deg(f64::from_bits(90.0f64.to_bits() + 1))).is_err());
    assert_eq!(
        Validator::validate_longitude(deg(181.0)),
        Err(ValidationError::InvalidLongitude(deg(181.0)))
    );
    assert_eq!(
        Validator::validate_latitude(deg(-91.0)),
        Err(ValidationError::InvalidLatitude(deg(-91.0)))
    );
}

#[test]
fn test_valid_icon_id() {
    assert!(Validator::validate_icon_id("ship").is_ok());
    assert!(Validator::validate_icon_id("my-icon").is_ok());
    assert!(Validator::validate_icon_id("icon_123").is_ok());
    assert!(Validator::validate_icon_id("ABC").is_ok());
}

#[test]
fn test_invalid_icon_id() {
    assert!(Validator::validate_icon_id("").is_err());
    assert!(Validator::validate_icon_id("icon with space").is_err());
    assert!(Validator::validate_icon_id("icon.png").is_err());
    assert!(Validator::validate_icon_id(&"a".repeat(65)).is_err());
}

#[test]
fn icon_id_limits_and_error_payload() {
    assert!(Validator::validate_icon_id(&"a".repeat(64)).is_ok());
    assert!(Validator::validate_icon_id("skib\u{e5}").is_err());
    assert_eq!(
        Validator::validate_icon_id("bad id"),
        Err(ValidationError::InvalidIconId("bad id".to_string()))
    );
}

#[test]
fn test_valid_label() {
    assert!(Validator::validate_label(&None).is_ok());
    assert!(Validator::validate_label(&Some("Oslo".to_string())).is_ok());
    assert!(Validator::validate_label(&Some("A".repeat(256))).is_ok());
}

#[test]
fn test_invalid_label() {
    assert!(Validator::validate_label(&Some("A".repeat(257))).is_err());
}

#[test]
fn label_length_counts_bytes() {
    assert_eq!(
        Validator::validate_label(&Some("\u{f8}".repeat(129))),
        Err(ValidationError::LabelTooLong(258))
    );
    assert!(Validator::validate_label(&Some("\u{f8}".repeat(128))).is_ok());
}

#[test]
fn test_validate_payload() {
    let valid = Payload::new(deg(59.9), deg(10.7), "ship".to_string(), Some("Oslo".to_string()));
    assert!(Validator::validate_payload(&valid).is_ok());

    let invalid_lat = Payload::new(deg(100.0), deg(10.7), "ship".to_string(), None);
    assert!(Validator::validate_payload(&invalid_lat).is_err());

    let invalid_icon = Payload::new(deg(59.9), deg(10.7), "".to_string(), None);
    assert!(Validator::validate_payload(&invalid_icon).is_err());

    assert!(Validator::validate_payload(&Payload::tombstone()).is_ok());
}

#[test]
fn marker_validation_reports_first_failure() {
    let data = fylge::MarkerData::new(deg(100.0), deg(200.0), "".to_string(), None);
    assert_eq!(
        Validator::validate_marker_data(&data),
        Err(ValidationError::InvalidLatitude(deg(100.0)))
    );
    let data = fylge::MarkerData::new(deg(10.0), deg(10.0), "ship".to_string(), Some("x".repeat(300)));
    assert_eq!(Validator::validate_marker_data(&data), Err(ValidationError::LabelTooLong(300)));
}

#[test]
fn parse_peer_list() {
    let peers = parse_peers(" 2@http://localhost:3002, ,3@http://b:3003/ ").unwrap();
    assert_eq!(peers.len(), 2);
    assert_eq!(peers[0].node_id, NodeId(2));
    assert_eq!(peers[0].endpoint, "http://localhost:3002");
    assert_eq!(peers[0].pull_interval_secs, 5);
    assert_eq!(peers[1].node_id, NodeId(3));
    assert_eq!(peers[1].endpoint, "http://b:3003/");
    assert!(parse_peers("").unwrap().is_empty());
    assert!(matches!(parse_peers("2http://x"), Err(ConfigError::Invalid("FYLGE_PEERS", m)) if m.starts_with("expected format")));
    assert!(matches!(parse_peers("2@a,x@b"), Err(ConfigError::Invalid("FYLGE_PEERS", m)) if m.starts_with("node_id must")));
    assert_eq!(parse_peers("+7@e@f").unwrap()[0].endpoint, "e@f");
}
