//! Materialized entities: the current state of a marker.

use vstd::prelude::*;

use crate::event::{copy_opt_text, opt_text, Degrees, EntityId, Event, EventId, EventModel, Payload, PayloadModel};
use crate::hlc::{hlc_lt, HlcTimestamp};

verus! {

/// Current state of a marker, derived from the event with the greatest
/// timestamp. A deleted marker stays as a tombstoned entity so that an older
/// upsert arriving late cannot bring it back.
#[derive(Clone, Debug, PartialEq)]
pub struct Entity {
    pub id: EntityId,
    pub lat: Degrees,
    pub lon: Degrees,
    pub icon_id: String,
    pub label: Option<String>,
    pub hlc: HlcTimestamp,
    pub source_event: EventId,
    /// Whether the marker has been deleted.
    pub deleted: bool,
}

pub ghost struct EntityModel {
    pub id: EntityId,
    pub lat: Degrees,
    pub lon: Degrees,
    pub icon_id: Seq<char>,
    pub label: Option<Seq<char>>,
    pub hlc: HlcTimestamp,
    pub source_event: EventId,
    pub deleted: bool,
}

impl View for Entity {
    type V = EntityModel;

    open spec fn view(&self) -> EntityModel {
        EntityModel {
            id: self.id,
            lat: self.lat,
            lon: self.lon,
            icon_id: self.icon_id@,
            label: opt_text(self.label),
            hlc: self.hlc,
            source_event: self.source_event,
            deleted: self.deleted,
        }
    }
}

/// The view of an optional entity.
pub open spec fn opt_entity(r: Option<Entity>) -> Option<EntityModel> {
    match r {
        Some(e) => Some(e@),
        None => None,
    }
}

/// The entity an event describes on its own. A tombstone gives a deleted
/// entity with zero position (the bits of `0.0`), no icon and no label.
pub open spec fn entity_of(e: EventModel) -> EntityModel {
    match e.payload {
        PayloadModel::Upsert(d) => EntityModel {
            id: e.entity_id,
            lat: d.lat,
            lon: d.lon,
            icon_id: d.icon_id,
            label: d.label,
            hlc: e.hlc,
            source_event: e.id,
            deleted: false,
        },
        PayloadModel::Tombstone => EntityModel {
            id: e.entity_id,
            lat: Degrees(0),
            lon: Degrees(0),
            icon_id: Seq::empty(),
            label: None,
            hlc: e.hlc,
            source_event: e.id,
            deleted: true,
        },
    }
}

impl Entity {
    /// The entity that `event` describes on its own.
    pub fn from_event(event: &Event) -> (r: Self)
        ensures
            r@ == entity_of(event@),
    {
        match &event.payload {
            Payload::Upsert(data) => Entity {
                id: event.entity_id,
                lat: data.lat,
                lon: data.lon,
                icon_id: data.icon_id.clone(),
                label: copy_opt_text(&data.label),
                hlc: event.hlc,
                source_event: event.id,
                deleted: false,
            },
            Payload::Tombstone => {
                let r = Entity {
                    id: event.entity_id,
                    lat: Degrees(0),
                    lon: Degrees(0),
                    icon_id: String::new(),
                    label: None,
                    hlc: event.hlc,
                    source_event: event.id,
                    deleted: true,
                };
                assert(r@ =~= entity_of(event@));
                r
            },
        }
    }

    /// Whether an entity built from `event` is newer than this one.
    pub fn should_replace_with(&self, event: &Event) -> (r: bool)
        ensures
            r == hlc_lt(self.hlc, event.hlc),
    {
        self.hlc.is_before(&event.hlc)
    }

    pub fn duplicate(&self) -> (r: Self)
        ensures
            r == *self,
    {
        Entity {
            id: self.id,
            lat: self.lat,
            lon: self.lon,
            icon_id: self.icon_id.clone(),
            label: copy_opt_text(&self.label),
            hlc: self.hlc,
            source_event: self.source_event,
            deleted: self.deleted,
        }
    }
}

} // verus!
