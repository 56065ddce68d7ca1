//! Core of a replicated marker store: hybrid logical clocks, a per-node
//! append-only event log, last-write-wins materialization and
//! contiguous replication checkpoints.

use vstd::prelude::*;

pub mod checkpoint;
pub mod config;
pub mod entity;
pub mod entity_store;
pub mod event;
pub mod hlc;
pub mod icon;
pub mod keys;
pub mod materializer;
pub mod node;
pub mod protocol;
pub mod replica;
pub mod storage;
pub mod text;
pub mod validation;

pub use checkpoint::CheckpointManager;
pub use entity::Entity;
pub use entity_store::InMemoryEntityStore;
pub use event::{Degrees, EntityId, Event, EventId, MarkerData, Payload};
pub use hlc::{ClockError, Hlc, HlcTimestamp};
pub use icon::Icon;
pub use keys::{decode_event_key, encode_event_key};
pub use materializer::EntityMaterializer;
pub use node::{NodeId, PeerConfig};
pub use protocol::{default_limit, respond_to_pull, EventsQuery, PullRequest, PullResponse};
pub use replica::{CoreError, Replica, SyncStats};
pub use storage::{
    AppendResult, InMemoryCheckpointStore, InMemoryEventStore, ReplicationCheckpoint, StorageError,
};
pub use validation::{ValidationError, Validator};
