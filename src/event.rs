//! Events of the append-only log and their payloads.

use vstd::prelude::*;
use vstd::string::StringExecFns;

use crate::hlc::HlcTimestamp;
use crate::node::{node_text, NodeId};
use crate::text::{decimal, decimal_text};

verus! {

/// Identity of a marker entity: the 128-bit value of its UUID.
#[derive(Clone, Copy, Debug, PartialEq, Eq, Structural, PartialOrd, Ord, Hash)]
pub struct EntityId(pub u128);

/// An angle in degrees, held as the IEEE-754 bit pattern of a 64-bit float
/// (`f64::to_bits`), so that it travels through the log exactly.
#[derive(Clone, Copy, Debug, PartialEq, Eq, Structural, Hash)]
pub struct Degrees(pub u64);

/// The 128-bit value of the UUID that `uuid::Uuid::parse_str` reads from
/// `s`, or nothing when it refuses `s`.
pub uninterp spec fn uuid_parsed(s: Seq<char>) -> Option<u128>;

/// Relies on `uuid::Uuid::new_v4`: a random (version 4) UUID.
#[verifier::external_body]
pub(crate) fn random_entity_id() -> (r: EntityId) {
    EntityId(uuid::Uuid::new_v4().as_u128())
}

/// Relies on `uuid::Uuid::parse_str`: reads a UUID in any of its textual
/// forms; the result depends on the text alone.
#[verifier::external_body]
pub(crate) fn parse_entity_id(s: &str) -> (r: Option<EntityId>)
    ensures
        r == match uuid_parsed(s@) {
            Some(v) => Some(EntityId(v)),
            None => None::<EntityId>,
        },
{
    match uuid::Uuid::parse_str(s) {
        Ok(u) => Some(EntityId(u.as_u128())),
        Err(_) => None,
    }
}

/// Identity of an event: the producing node and its sequence number there.
#[derive(Clone, Copy, Debug, PartialEq, Eq, Structural, Hash)]
pub struct EventId {
    pub node_id: NodeId,
    pub sequence: u64,
}

/// The display form `node-<node>:<sequence>`.
pub open spec fn event_id_text(id: EventId) -> Seq<char> {
    node_text(id.node_id) + seq![':'] + decimal_text(id.sequence as nat)
}

impl EventId {
    pub fn new(node_id: NodeId, sequence: u64) -> (r: Self)
        ensures
            r == (EventId { node_id, sequence }),
    {
        EventId { node_id, sequence }
    }

    /// The display form, e.g. `node-1:42`.
    pub fn to_string(&self) -> (r: String)
        ensures
            r@ == event_id_text(*self),
    {
        let s = self.node_id.to_string();
        let s = s.concat(":");
        let d = decimal(self.sequence);
        proof {
            reveal_strlit(":");
        }
        let r = s.concat(d.as_str());
        assert(r@ =~= event_id_text(*self));
        r
    }
}

/// The view of an optional string.
pub open spec fn opt_text(s: Option<String>) -> Option<Seq<char>> {
    match s {
        Some(t) => Some(t@),
        None => None,
    }
}

/// A copy of an optional string.
pub fn copy_opt_text(s: &Option<String>) -> (r: Option<String>)
    ensures
        r == *s,
{
    match s {
        Some(t) => Some(t.clone()),
        None => None,
    }
}

/// Position, icon and label of a marker.
#[derive(Clone, Debug, PartialEq)]
pub struct MarkerData {
    pub lat: Degrees,
    pub lon: Degrees,
    pub icon_id: String,
    pub label: Option<String>,
}

pub ghost struct MarkerModel {
    pub lat: Degrees,
    pub lon: Degrees,
    pub icon_id: Seq<char>,
    pub label: Option<Seq<char>>,
}

impl View for MarkerData {
    type V = MarkerModel;

    open spec fn view(&self) -> MarkerModel {
        MarkerModel { lat: self.lat, lon: self.lon, icon_id: self.icon_id@, label: opt_text(self.label) }
    }
}

impl MarkerData {
    pub fn new(lat: Degrees, lon: Degrees, icon_id: String, label: Option<String>) -> (r: Self)
        ensures
            r == (MarkerData { lat, lon, icon_id, label }),
    {
        MarkerData { lat, lon, icon_id, label }
    }

    pub fn duplicate(&self) -> (r: Self)
        ensures
            r == *self,
    {
        MarkerData {
            lat: self.lat,
            lon: self.lon,
            icon_id: self.icon_id.clone(),
            label: copy_opt_text(&self.label),
        }
    }
}

/// What an event does to its entity.
#[derive(Clone, Debug, PartialEq)]
pub enum Payload {
    /// Create or replace the marker.
    Upsert(MarkerData),
    /// Delete the marker.
    Tombstone,
}

pub ghost enum PayloadModel {
    Upsert(MarkerModel),
    Tombstone,
}

impl View for Payload {
    type V = PayloadModel;

    open spec fn view(&self) -> PayloadModel {
        match self {
            Payload::Upsert(d) => PayloadModel::Upsert(d@),
            Payload::Tombstone => PayloadModel::Tombstone,
        }
    }
}

impl Payload {
    /// An upsert payload.
    pub fn new(lat: Degrees, lon: Degrees, icon_id: String, label: Option<String>) -> (r: Self)
        ensures
            r == Payload::Upsert(MarkerData { lat, lon, icon_id, label }),
    {
        Payload::Upsert(MarkerData::new(lat, lon, icon_id, label))
    }

    /// A tombstone payload.
    pub fn tombstone() -> (r: Self)
        ensures
            r == Payload::Tombstone,
    {
        Payload::Tombstone
    }

    pub fn is_tombstone(&self) -> (r: bool)
        ensures
            r == (*self is Tombstone),
    {
        match self {
            Payload::Tombstone => true,
            Payload::Upsert(_) => false,
        }
    }

    /// The marker data of an upsert.
    pub fn marker_data(&self) -> (r: Option<&MarkerData>)
        ensures
            r == match self {
                Payload::Upsert(d) => Some(d),
                Payload::Tombstone => None::<&MarkerData>,
            },
    {
        match self {
            Payload::Upsert(d) => Some(d),
            Payload::Tombstone => None,
        }
    }

    pub fn duplicate(&self) -> (r: Self)
        ensures
            r == *self,
    {
        match self {
            Payload::Upsert(d) => Payload::Upsert(d.duplicate()),
            Payload::Tombstone => Payload::Tombstone,
        }
    }
}

/// An immutable entry of the log.
#[derive(Clone, Debug, PartialEq)]
pub struct Event {
    pub id: EventId,
    pub entity_id: EntityId,
    pub hlc: HlcTimestamp,
    pub payload: Payload,
}

pub ghost struct EventModel {
    pub id: EventId,
    pub entity_id: EntityId,
    pub hlc: HlcTimestamp,
    pub payload: PayloadModel,
}

impl View for Event {
    type V = EventModel;

    open spec fn view(&self) -> EventModel {
        EventModel { id: self.id, entity_id: self.entity_id, hlc: self.hlc, payload: self.payload@ }
    }
}

impl Event {
    pub fn new(id: EventId, entity_id: EntityId, hlc: HlcTimestamp, payload: Payload) -> (r: Self)
        ensures
            r == (Event { id, entity_id, hlc, payload }),
    {
        Event { id, entity_id, hlc, payload }
    }

    pub fn duplicate(&self) -> (r: Self)
        ensures
            r == *self,
    {
        Event {
            id: self.id,
            entity_id: self.entity_id,
            hlc: self.hlc,
            payload: self.payload.duplicate(),
        }
    }
}

/// The views of a sequence of events.
pub open spec fn event_views(s: Seq<Event>) -> Seq<EventModel> {
    s.map_values(|e: Event| e@)
}

} // verus!
