//! The peer pull protocol: requests, responses and serving a request from
//! the local log.

use vstd::prelude::*;

use crate::event::{event_views, Event, EventModel};
use crate::node::NodeId;
use crate::storage::InMemoryEventStore;

verus! {

/// Request for the events of `target_node` after `since_seq`.
#[derive(Clone, Debug)]
pub struct PullRequest {
    /// The requesting node.
    pub from_node: NodeId,
    /// The node whose events are wanted.
    pub target_node: NodeId,
    /// Only events with a greater sequence are wanted.
    pub since_seq: u64,
    /// Most events wanted in one response.
    pub limit: Option<usize>,
}

impl PullRequest {
    pub fn new(from_node: NodeId, target_node: NodeId, since_seq: u64) -> (r: Self)
        ensures
            r.from_node == from_node,
            r.target_node == target_node,
            r.since_seq == since_seq,
            r.limit == None::<usize>,
    {
        PullRequest { from_node, target_node, since_seq, limit: None }
    }

    pub fn with_limit(self, limit: usize) -> (r: Self)
        ensures
            r.from_node == self.from_node,
            r.target_node == self.target_node,
            r.since_seq == self.since_seq,
            r.limit == Some(limit),
    {
        PullRequest { limit: Some(limit), ..self }
    }
}

/// Events sent by a peer in answer to a pull.
#[derive(Clone, Debug)]
pub struct PullResponse {
    /// The responding node.
    pub from_node: NodeId,
    pub events: Vec<Event>,
    /// Whether events were left out because of the limit.
    pub has_more: bool,
}

impl PullResponse {
    pub fn new(from_node: NodeId, events: Vec<Event>, has_more: bool) -> (r: Self)
        ensures
            r == (PullResponse { from_node, events, has_more }),
    {
        PullResponse { from_node, events, has_more }
    }

    pub fn empty(from_node: NodeId) -> (r: Self)
        ensures
            r.from_node == from_node,
            r.events@.len() == 0,
            !r.has_more,
    {
        PullResponse { from_node, events: Vec::new(), has_more: false }
    }
}

/// Query of the events endpoint.
#[derive(Clone, Copy, Debug, PartialEq, Eq)]
pub struct EventsQuery {
    /// Events with a greater sequence are wanted (default 0).
    pub since_seq: u64,
    /// Most events in one response (default [`default_limit`]).
    pub limit: usize,
}

/// Default number of events per response.
pub fn default_limit() -> (r: usize)
    ensures
        r == 100,
{
    100
}

impl EventsQuery {
    /// A query with the defaults: from the start, [`default_limit`] events.
    pub fn new() -> (r: Self)
        ensures
            r.since_seq == 0,
            r.limit == 100,
    {
        EventsQuery { since_seq: 0, limit: default_limit() }
    }
}

/// Answer `query` from the log of node `node_id`: its events after
/// `query.since_seq` in sequence order, cut to `query.limit`, with
/// `has_more` telling whether any were cut.
pub fn respond_to_pull(log: &InMemoryEventStore, node_id: NodeId, query: EventsQuery) -> (r: PullResponse)
    ensures
        ({
            let all = log@.events.filter(
                |e: EventModel| e.id.node_id == node_id && e.id.sequence > query.since_seq,
            );
            &&& r.from_node == node_id
            &&& r.has_more == (all.len() > query.limit)
            &&& event_views(r.events@) == if all.len() > query.limit {
                all.take(query.limit as int)
            } else {
                all
            }
        }),
{
    let events = match log.get_events_since(node_id, query.since_seq) {
        Ok(v) => v,
        Err(_) => Vec::new(),
    };
    let has_more = events.len() > query.limit;
    if !has_more {
        return PullResponse::new(node_id, events, false);
    }
    let mut out: Vec<Event> = Vec::new();
    let mut i: usize = 0;
    while i < query.limit
        invariant
            i <= query.limit < events@.len(),
            event_views(out@) == event_views(events@).take(i as int),
        decreases query.limit - i,
    {
        let ghost before = out@;
        out.push(events[i].duplicate());
        assert(event_views(out@) =~= event_views(before).push(events@[i as int]@));
        assert(event_views(events@).take(i + 1) =~= event_views(events@).take(i as int).push(event_views(events@)[i as int]));
        i = i + 1;
    }
    PullResponse::new(node_id, out, true)
}

} // verus!
