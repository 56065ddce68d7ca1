//! Last-write-wins projection of events onto an entity.

use vstd::prelude::*;

use crate::entity::{entity_of, opt_entity, Entity, EntityModel};
use crate::event::{Event, EventModel};
use crate::hlc::{hlc_lt, lemma_hlc_total};

verus! {

/// `w` is an element of `s` with no element of `s` strictly after it.
pub open spec fn is_latest(s: Seq<EventModel>, w: EventModel) -> bool {
    &&& s.contains(w)
    &&& forall|j: int| 0 <= j < s.len() ==> !hlc_lt(w.hlc, #[trigger] s[j].hlc)
}

/// Whether distinct events of `s` carry distinct timestamps (which the node
/// tie-break of the timestamp order guarantees for events produced by
/// well-behaved nodes).
pub open spec fn timestamps_distinct(s: Seq<EventModel>) -> bool {
    forall|i: int, j: int|
        0 <= i < s.len() && 0 <= j < s.len() && #[trigger] s[i].hlc == #[trigger] s[j].hlc ==> s[i]
            == s[j]
}

/// What materializing `s` may yield: nothing for no events, else the entity
/// of a latest event.
pub open spec fn materializes_to(s: Seq<EventModel>, r: Option<EntityModel>) -> bool {
    match r {
        None => s.len() == 0,
        Some(m) => exists|w: EventModel| is_latest(s, w) && m == entity_of(w),
    }
}

/// Projects sets of events onto entities by last-write-wins.
pub struct EntityMaterializer;

impl EntityMaterializer {
    /// The entity derived from the event with the greatest timestamp, or
    /// nothing for no events.
    pub fn materialize(events: Vec<Event>) -> (r: Option<Entity>)
        ensures
            materializes_to(events@.map_values(|e: Event| e@), opt_entity(r)),
    {
        Self::materialize_ref(events.as_slice())
    }

    /// As [`EntityMaterializer::materialize`], on borrowed events.
    pub fn materialize_ref(events: &[Event]) -> (r: Option<Entity>)
        ensures
            materializes_to(events@.map_values(|e: Event| e@), opt_entity(r)),
    {
        let ghost s = events@.map_values(|e: Event| e@);
        if events.len() == 0 {
            return None;
        }
        let mut best: usize = 0;
        let mut i: usize = 1;
        while i < events.len()
            invariant
                s == events@.map_values(|e: Event| e@),
                0 <= best < i <= events.len(),
                forall|j: int| 0 <= j < i ==> !hlc_lt(events@[best as int].hlc, #[trigger] events@[j].hlc),
            decreases events.len() - i,
        {
            if !events[i].hlc.is_before(&events[best].hlc) {
                proof {
                    assert forall|j: int| 0 <= j < i + 1 implies !hlc_lt(events@[i as int].hlc, #[trigger] events@[j].hlc) by {
                        lemma_hlc_total(events@[i as int].hlc, events@[best as int].hlc);
                        if j < i {
                            lemma_hlc_total(events@[best as int].hlc, events@[j].hlc);
                            lemma_hlc_total(events@[i as int].hlc, events@[j].hlc);
                        }
                    }
                }
                best = i;
            }
            i = i + 1;
        }
        let r = Entity::from_event(&events[best]);
        proof {
            let w = s[best as int];
            assert(s.contains(w));
            assert forall|j: int| 0 <= j < s.len() implies !hlc_lt(w.hlc, #[trigger] s[j].hlc) by {
                assert(s[j] == events@[j]@);
            }
            assert(is_latest(s, w));
        }
        Some(r)
    }

    /// Whether `new_event` is newer than `existing`.
    pub fn should_replace(existing: &Entity, new_event: &Event) -> (r: bool)
        ensures
            r == hlc_lt(existing.hlc, new_event.hlc),
    {
        existing.should_replace_with(new_event)
    }
}

/// Materialization does not depend on delivery order or duplication: two
/// deliveries of the same set of events, whose distinct events carry
/// distinct timestamps, materialize to the same entity, the one derived from
/// the single event with the greatest timestamp.
pub proof fn lemma_materialize_order_independent(
    s1: Seq<EventModel>,
    s2: Seq<EventModel>,
    r1: Option<EntityModel>,
    r2: Option<EntityModel>,
)
    requires
        s1.to_set() == s2.to_set(),
        timestamps_distinct(s1),
        materializes_to(s1, r1),
        materializes_to(s2, r2),
    ensures
        r1 == r2,
{
    assert forall|x: EventModel| s1.contains(x) <==> s2.contains(x) by {
        assert(s1.to_set().contains(x) == s1.contains(x));
        assert(s2.to_set().contains(x) == s2.contains(x));
    }
    match r1 {
        None => {
            if s2.len() > 0 {
                assert(s2.contains(s2[0]));
                assert(s1.contains(s2[0]));
            }
        },
        Some(m1) => {
            let w1 = choose|w: EventModel| is_latest(s1, w) && m1 == entity_of(w);
            if r2 is None {
                assert(s1.contains(w1));
                assert(s2.contains(w1));
            } else {
                let m2 = r2->Some_0;
                let w2 = choose|w: EventModel| is_latest(s2, w) && m2 == entity_of(w);
                let i1 = choose|i: int| 0 <= i < s1.len() && s1[i] == w1;
                let i2 = choose|i: int| 0 <= i < s1.len() && s1[i] == w2;
                let k1 = choose|i: int| 0 <= i < s2.len() && s2[i] == w1;
                assert(!hlc_lt(w1.hlc, s1[i2].hlc));
                assert(!hlc_lt(w2.hlc, s2[k1].hlc));
                lemma_hlc_total(w1.hlc, w2.hlc);
                assert(s1[i1].hlc == s1[i2].hlc);
            }
        },
    }
}

} // verus!
