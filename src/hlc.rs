//! Hybrid logical clock.
//!
//! A timestamp is `(wall_time, counter, node_id)`, ordered lexicographically.
//! The clock keeps the last timestamp it produced; every successful call to
//! [`Hlc::now`] or [`Hlc::receive`] returns a timestamp strictly after it
//! (as long as the logical counter has not hit its ceiling).

use vstd::prelude::*;

use crate::node::NodeId;

verus! {

/// Default bound on how far a timestamp may run ahead of physical time.
pub const DEFAULT_MAX_DRIFT_MS: u64 = 60_000;

/// A hybrid logical clock timestamp.
///
/// The derived order compares the fields in declaration order; verified
/// code compares with [`HlcTimestamp::is_before`], specified by [`hlc_lt`].
#[derive(Clone, Copy, Debug, PartialEq, Eq, Structural, PartialOrd, Ord, Hash)]
pub struct HlcTimestamp {
    /// Physical component, milliseconds since the Unix epoch.
    pub wall_time: u64,
    /// Logical component for events sharing a wall time.
    pub counter: u32,
    /// Producing node, the final tie-breaker.
    pub node_id: NodeId,
}

/// Strict lexicographic order on timestamps.
pub open spec fn hlc_lt(a: HlcTimestamp, b: HlcTimestamp) -> bool {
    a.wall_time < b.wall_time || (a.wall_time == b.wall_time && (a.counter < b.counter || (
    a.counter == b.counter && a.node_id.0 < b.node_id.0)))
}

/// Non-strict order on timestamps.
pub open spec fn hlc_le(a: HlcTimestamp, b: HlcTimestamp) -> bool {
    hlc_lt(a, b) || a == b
}

/// The order is transitive.
pub proof fn lemma_hlc_lt_transitive(a: HlcTimestamp, b: HlcTimestamp, c: HlcTimestamp)
    requires
        hlc_lt(a, b),
        hlc_lt(b, c),
    ensures
        hlc_lt(a, c),
{
}

/// The order is total: two timestamps are equal or one is before the other.
pub proof fn lemma_hlc_total(a: HlcTimestamp, b: HlcTimestamp)
    ensures
        a == b || hlc_lt(a, b) || hlc_lt(b, a),
        !(hlc_lt(a, b) && hlc_lt(b, a)),
        !hlc_lt(a, a),
{
}

impl HlcTimestamp {
    pub fn new(wall_time: u64, counter: u32, node_id: NodeId) -> (r: Self)
        ensures
            r == (HlcTimestamp { wall_time, counter, node_id }),
    {
        HlcTimestamp { wall_time, counter, node_id }
    }

    /// The earliest timestamp of a node.
    pub fn zero(node_id: NodeId) -> (r: Self)
        ensures
            r == (HlcTimestamp { wall_time: 0, counter: 0, node_id }),
    {
        HlcTimestamp { wall_time: 0, counter: 0, node_id }
    }

    /// Whether `self` comes strictly before `other`.
    pub fn is_before(&self, other: &HlcTimestamp) -> (r: bool)
        ensures
            r == hlc_lt(*self, *other),
    {
        self.wall_time < other.wall_time || (self.wall_time == other.wall_time && (self.counter
            < other.counter || (self.counter == other.counter && self.node_id.0
            < other.node_id.0)))
    }
}

/// Errors of the clock.
#[derive(Clone, Copy, Debug, PartialEq, Eq, Structural)]
pub enum ClockError {
    /// The clock's own last timestamp is ahead of physical time by more
    /// than the allowed drift; carries the distance in milliseconds.
    ExcessiveDrift(u64),
    /// A remote timestamp is ahead of physical time by more than the
    /// allowed drift; carries the distance in milliseconds.
    RemoteClockAhead(u64),
}

/// Counter increment that stays at the ceiling.
pub open spec fn counter_after(c: u32) -> u32 {
    if c == u32::MAX {
        u32::MAX
    } else {
        (c + 1) as u32
    }
}

/// The abstract state of a clock.
pub ghost struct ClockState {
    pub node_id: NodeId,
    pub last: HlcTimestamp,
    pub max_drift_ms: u64,
}

/// What `now` yields at physical time `physical`.
pub open spec fn now_result(s: ClockState, physical: u64) -> Result<HlcTimestamp, ClockError> {
    if s.last.wall_time > physical + s.max_drift_ms {
        Err(ClockError::ExcessiveDrift((s.last.wall_time - physical) as u64))
    } else if physical > s.last.wall_time {
        Ok(HlcTimestamp { wall_time: physical, counter: 0, node_id: s.node_id })
    } else {
        Ok(
            HlcTimestamp {
                wall_time: s.last.wall_time,
                counter: counter_after(s.last.counter),
                node_id: s.node_id,
            },
        )
    }
}

/// What `receive(remote)` yields at physical time `physical`.
pub open spec fn receive_result(s: ClockState, remote: HlcTimestamp, physical: u64) -> Result<
    HlcTimestamp,
    ClockError,
> {
    let last = s.last;
    if remote.wall_time > physical + s.max_drift_ms {
        Err(ClockError::RemoteClockAhead((remote.wall_time - physical) as u64))
    } else if physical > last.wall_time && physical > remote.wall_time {
        Ok(HlcTimestamp { wall_time: physical, counter: 0, node_id: s.node_id })
    } else if last.wall_time >= physical && last.wall_time == remote.wall_time {
        let c = if last.counter >= remote.counter {
            last.counter
        } else {
            remote.counter
        };
        Ok(HlcTimestamp { wall_time: last.wall_time, counter: counter_after(c), node_id: s.node_id })
    } else if last.wall_time >= physical && last.wall_time > remote.wall_time {
        Ok(
            HlcTimestamp {
                wall_time: last.wall_time,
                counter: counter_after(last.counter),
                node_id: s.node_id,
            },
        )
    } else {
        Ok(
            HlcTimestamp {
                wall_time: remote.wall_time,
                counter: counter_after(remote.counter),
                node_id: s.node_id,
            },
        )
    }
}

/// The state after a call that yielded `r`: a success becomes the new last
/// timestamp, a failure leaves the state alone.
pub open spec fn state_after(s: ClockState, r: Result<HlcTimestamp, ClockError>) -> ClockState {
    match r {
        Ok(t) => ClockState { last: t, ..s },
        Err(_) => s,
    }
}

/// A hybrid logical clock owned by one node.
pub struct Hlc {
    node_id: NodeId,
    last_timestamp: HlcTimestamp,
    max_drift_ms: u64,
}

impl View for Hlc {
    type V = ClockState;

    closed spec fn view(&self) -> ClockState {
        ClockState {
            node_id: self.node_id,
            last: self.last_timestamp,
            max_drift_ms: self.max_drift_ms,
        }
    }
}

/// Relies on std's `SystemTime::now`: the wall clock in whole milliseconds
/// since the Unix epoch (0 if the clock reads earlier than the epoch).
#[verifier::external_body]
pub(crate) fn system_time_millis() -> (r: u64) {
    match std::time::SystemTime::now().duration_since(std::time::UNIX_EPOCH) {
        Ok(d) => d.as_millis() as u64,
        Err(_) => 0,
    }
}

impl Hlc {
    /// A clock for `node_id` with the default drift bound.
    pub fn new(node_id: NodeId) -> (r: Self)
        ensures
            r@ == (ClockState {
                node_id,
                last: HlcTimestamp { wall_time: 0, counter: 0, node_id },
                max_drift_ms: DEFAULT_MAX_DRIFT_MS,
            }),
    {
        Hlc {
            node_id,
            last_timestamp: HlcTimestamp::zero(node_id),
            max_drift_ms: DEFAULT_MAX_DRIFT_MS,
        }
    }

    /// A clock for `node_id` with drift bound `max_drift_ms`.
    pub fn with_max_drift(node_id: NodeId, max_drift_ms: u64) -> (r: Self)
        ensures
            r@ == (ClockState {
                node_id,
                last: HlcTimestamp { wall_time: 0, counter: 0, node_id },
                max_drift_ms,
            }),
    {
        Hlc { node_id, last_timestamp: HlcTimestamp::zero(node_id), max_drift_ms }
    }

    pub fn node_id(&self) -> (r: NodeId)
        ensures
            r == self@.node_id,
    {
        self.node_id
    }

    /// The last timestamp produced (or the zero timestamp of a fresh clock).
    pub fn last(&self) -> (r: HlcTimestamp)
        ensures
            r == self@.last,
    {
        self.last_timestamp
    }

    /// Stamp a local event, given the physical time in milliseconds.
    pub fn now_at(&mut self, physical: u64) -> (r: Result<HlcTimestamp, ClockError>)
        ensures
            r == now_result(old(self)@, physical),
            final(self)@ == state_after(old(self)@, r),
    {
        let last = self.last_timestamp;
        if last.wall_time > physical && last.wall_time - physical > self.max_drift_ms {
            return Err(ClockError::ExcessiveDrift(last.wall_time - physical));
        }
        let new_ts = if physical > last.wall_time {
            HlcTimestamp { wall_time: physical, counter: 0, node_id: self.node_id }
        } else {
            HlcTimestamp {
                wall_time: last.wall_time,
                counter: last.counter.saturating_add(1),
                node_id: self.node_id,
            }
        };
        self.last_timestamp = new_ts;
        Ok(new_ts)
    }

    /// Stamp a local event at the current physical time.
    pub fn now(&mut self) -> (r: Result<HlcTimestamp, ClockError>)
        ensures
            exists|physical: u64| r == now_result(old(self)@, physical),
            final(self)@ == state_after(old(self)@, r),
    {
        let physical = system_time_millis();
        self.now_at(physical)
    }

    /// Merge a remote timestamp into the clock, given the physical time.
    pub fn receive_at(&mut self, remote: HlcTimestamp, physical: u64) -> (r: Result<
        HlcTimestamp,
        ClockError,
    >)
        ensures
            r == receive_result(old(self)@, remote, physical),
            final(self)@ == state_after(old(self)@, r),
    {
        let last = self.last_timestamp;
        if remote.wall_time > physical && remote.wall_time - physical > self.max_drift_ms {
            return Err(ClockError::RemoteClockAhead(remote.wall_time - physical));
        }
        let new_ts = if physical > last.wall_time && physical > remote.wall_time {
            HlcTimestamp { wall_time: physical, counter: 0, node_id: self.node_id }
        } else if last.wall_time >= physical && last.wall_time == remote.wall_time {
            let c = if last.counter >= remote.counter {
                last.counter
            } else {
                remote.counter
            };
            HlcTimestamp {
                wall_time: last.wall_time,
                counter: c.saturating_add(1),
                node_id: self.node_id,
            }
        } else if last.wall_time >= physical && last.wall_time > remote.wall_time {
            HlcTimestamp {
                wall_time: last.wall_time,
                counter: last.counter.saturating_add(1),
                node_id: self.node_id,
            }
        } else {
            HlcTimestamp {
                wall_time: remote.wall_time,
                counter: remote.counter.saturating_add(1),
                node_id: self.node_id,
            }
        };
        self.last_timestamp = new_ts;
        Ok(new_ts)
    }

    /// Merge a remote timestamp into the clock at the current physical time.
    pub fn receive(&mut self, remote: HlcTimestamp) -> (r: Result<HlcTimestamp, ClockError>)
        ensures
            exists|physical: u64| r == receive_result(old(self)@, remote, physical),
            final(self)@ == state_after(old(self)@, r),
    {
        let physical = system_time_millis();
        self.receive_at(remote, physical)
    }
}

/// `l` is at or after `x`, or both share a wall time and `l`'s counter sits
/// at its ceiling (where the clock can no longer move past `x`).
pub open spec fn stamp_covers(l: HlcTimestamp, x: HlcTimestamp) -> bool {
    hlc_le(x, l) || (l.counter == u32::MAX && l.wall_time == x.wall_time)
}

/// Covering is transitive.
pub proof fn lemma_stamp_covers_transitive(a: HlcTimestamp, b: HlcTimestamp, c: HlcTimestamp)
    requires
        stamp_covers(b, a),
        stamp_covers(c, b),
    ensures
        stamp_covers(c, a),
{
}

/// A successful receive keeps the clock's node, and its result covers both
/// the remote timestamp and the clock's previous one.
pub proof fn lemma_receive_covers(s: ClockState, remote: HlcTimestamp, physical: u64)
    requires
        s.last.node_id == s.node_id,
        receive_result(s, remote, physical) is Ok,
    ensures
        receive_result(s, remote, physical)->Ok_0.node_id == s.node_id,
        stamp_covers(receive_result(s, remote, physical)->Ok_0, remote),
        stamp_covers(receive_result(s, remote, physical)->Ok_0, s.last),
{
}

/// One call on a clock, with the physical time it read.
pub ghost enum ClockCall {
    Now { physical: u64 },
    Receive { remote: HlcTimestamp, physical: u64 },
}

/// What a call yields on a clock in state `s`.
pub open spec fn call_result(s: ClockState, c: ClockCall) -> Result<HlcTimestamp, ClockError> {
    match c {
        ClockCall::Now { physical } => now_result(s, physical),
        ClockCall::Receive { remote, physical } => receive_result(s, remote, physical),
    }
}

/// Whether a call would raise a logical counter that is already at its
/// ceiling (the one case where the clock cannot move forward).
pub open spec fn call_hits_ceiling(s: ClockState, c: ClockCall) -> bool {
    match call_result(s, c) {
        Err(_) => false,
        Ok(_) => match c {
            ClockCall::Now { physical } => physical <= s.last.wall_time && s.last.counter
                == u32::MAX,
            ClockCall::Receive { remote, physical } => {
                let last = s.last;
                if physical > last.wall_time && physical > remote.wall_time {
                    false
                } else if last.wall_time >= physical && last.wall_time == remote.wall_time {
                    last.counter == u32::MAX || remote.counter == u32::MAX
                } else if last.wall_time >= physical && last.wall_time > remote.wall_time {
                    last.counter == u32::MAX
                } else {
                    remote.counter == u32::MAX
                }
            },
        },
    }
}

/// The timestamps handed out by a run of calls, in order (failed calls
/// hand out nothing).
pub open spec fn issued(s: ClockState, calls: Seq<ClockCall>) -> Seq<HlcTimestamp>
    decreases calls.len(),
{
    if calls.len() == 0 {
        Seq::empty()
    } else {
        let r = call_result(s, calls[0]);
        let rest = issued(state_after(s, r), calls.drop_first());
        match r {
            Ok(t) => seq![t] + rest,
            Err(_) => rest,
        }
    }
}

/// Whether no call of the run hits a counter ceiling.
pub open spec fn run_below_ceiling(s: ClockState, calls: Seq<ClockCall>) -> bool
    decreases calls.len(),
{
    if calls.len() == 0 {
        true
    } else {
        !call_hits_ceiling(s, calls[0]) && run_below_ceiling(
            state_after(s, call_result(s, calls[0])),
            calls.drop_first(),
        )
    }
}

/// A successful call yields a timestamp after the clock's last one and,
/// for a receive, after the remote one.
pub proof fn lemma_call_advances(s: ClockState, c: ClockCall)
    requires
        !call_hits_ceiling(s, c),
    ensures
        call_result(s, c) is Ok ==> hlc_lt(s.last, call_result(s, c)->Ok_0),
        call_result(s, c) is Ok ==> match c {
            ClockCall::Receive { remote, physical } => hlc_lt(remote, call_result(s, c)->Ok_0),
            ClockCall::Now { physical } => true,
        },
{
}

/// Every run of `now` / `receive` calls hands out strictly increasing
/// timestamps, all after the clock's starting point, provided no logical
/// counter is pushed past its ceiling.
pub proof fn lemma_issued_strictly_increasing(s: ClockState, calls: Seq<ClockCall>)
    requires
        run_below_ceiling(s, calls),
    ensures
        forall|i: int| 0 <= i < issued(s, calls).len() ==> hlc_lt(s.last, #[trigger] issued(s, calls)[i]),
        forall|i: int, j: int|
            0 <= i < j < issued(s, calls).len() ==> hlc_lt(
                #[trigger] issued(s, calls)[i],
                #[trigger] issued(s, calls)[j],
            ),
    decreases calls.len(),
{
    if calls.len() > 0 {
        let r = call_result(s, calls[0]);
        let s2 = state_after(s, r);
        lemma_call_advances(s, calls[0]);
        lemma_issued_strictly_increasing(s2, calls.drop_first());
        let rest = issued(s2, calls.drop_first());
        match r {
            Ok(t) => {
                assert(issued(s, calls) == seq![t] + rest);
                assert forall|i: int| 0 <= i < issued(s, calls).len() implies hlc_lt(
                    s.last,
                    #[trigger] issued(s, calls)[i],
                ) by {
                    if i > 0 {
                        assert(issued(s, calls)[i] == rest[i - 1]);
                        lemma_hlc_lt_transitive(s.last, t, rest[i - 1]);
                    }
                }
                assert forall|i: int, j: int|
                    0 <= i < j < issued(s, calls).len() implies hlc_lt(
                    #[trigger] issued(s, calls)[i],
                    #[trigger] issued(s, calls)[j],
                ) by {
                    assert(issued(s, calls)[j] == rest[j - 1]);
                    if i > 0 {
                        assert(issued(s, calls)[i] == rest[i - 1]);
                    }
                }
            },
            Err(_) => {
                assert(s2 == s);
            },
        }
    }
}

} // verus!
