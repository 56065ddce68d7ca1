//! The entity view: current last-write-wins state of every marker.

use std::collections::HashMap;
use vstd::prelude::*;

use crate::entity::{entity_of, Entity, EntityModel};
use crate::event::{EntityId, EventModel};
use crate::hlc::hlc_lt;
use crate::materializer::{is_latest, lemma_materialize_order_independent, materializes_to, timestamps_distinct};
use crate::storage::StorageError;

verus! {

broadcast use vstd::std_specs::hash::group_hash_axioms;

/// The map that a sequence of entities with distinct ids describes.
pub open spec fn as_map(s: Seq<EntityModel>) -> Map<EntityId, EntityModel>
    decreases s.len(),
{
    if s.len() == 0 {
        Map::empty()
    } else {
        as_map(s.drop_last()).insert(s.last().id, s.last())
    }
}

/// No two entities of `s` share an id.
pub open spec fn ids_unique(s: Seq<EntityModel>) -> bool {
    forall|i: int, j: int| 0 <= i < s.len() && 0 <= j < s.len() && #[trigger] s[i].id == #[trigger] s[j].id ==> i == j
}

/// The views of a sequence of entities.
pub open spec fn entity_views(s: Seq<Entity>) -> Seq<EntityModel> {
    s.map_values(|e: Entity| e@)
}

/// Last-write-wins store of `e` into `m`: kept out when the stored entity
/// of the same id is at least as recent.
pub open spec fn lww_upsert(m: Map<EntityId, EntityModel>, e: EntityModel) -> Map<EntityId, EntityModel> {
    if m.contains_key(e.id) && !hlc_lt(m[e.id].hlc, e.hlc) {
        m
    } else {
        m.insert(e.id, e)
    }
}

/// The keys and values of `as_map(s)`.
pub proof fn lemma_as_map(s: Seq<EntityModel>)
    requires
        ids_unique(s),
    ensures
        forall|k: EntityId| #[trigger] as_map(s).contains_key(k) <==> exists|i: int| 0 <= i < s.len() && s[i].id == k,
        forall|i: int| 0 <= i < s.len() ==> as_map(s)[#[trigger] s[i].id] == s[i],
    decreases s.len(),
{
    if s.len() > 0 {
        let t = s.drop_last();
        assert(ids_unique(t));
        lemma_as_map(t);
        assert(as_map(s) == as_map(t).insert(s.last().id, s.last()));
        assert forall|k: EntityId| #[trigger] as_map(s).contains_key(k) <==> exists|i: int| 0 <= i < s.len() && s[i].id == k by {
            if as_map(s).contains_key(k) {
                if k == s.last().id {
                    assert(s[s.len() - 1].id == k);
                } else {
                    assert(as_map(t).contains_key(k));
                    let i = choose|i: int| 0 <= i < t.len() && t[i].id == k;
                    assert(t[i] == s[i]);
                }
            }
            if exists|i: int| 0 <= i < s.len() && s[i].id == k {
                let i = choose|i: int| 0 <= i < s.len() && s[i].id == k;
                if i < s.len() - 1 {
                    assert(t[i] == s[i]);
                    assert(as_map(t).contains_key(k));
                }
            }
        }
        assert forall|i: int| 0 <= i < s.len() implies as_map(s)[#[trigger] s[i].id] == s[i] by {
            if i < s.len() - 1 {
                assert(t[i] == s[i]);
            }
        }
    }
}

/// The value of `k` in `m`, if any.
pub open spec fn map_get(m: Map<EntityId, EntityModel>, k: EntityId) -> Option<EntityModel> {
    if m.contains_key(k) {
        Some(m[k])
    } else {
        None
    }
}

/// The entity view reached by upserting, in order, the entity of each event
/// of `s` into an empty view.
pub open spec fn lww_fold(s: Seq<EventModel>) -> Map<EntityId, EntityModel>
    decreases s.len(),
{
    if s.len() == 0 {
        Map::empty()
    } else {
        lww_upsert(lww_fold(s.drop_last()), entity_of(s.last()))
    }
}

/// The events of `s` about entity `id`.
pub open spec fn events_of(s: Seq<EventModel>, id: EntityId) -> Seq<EventModel> {
    s.filter(about(id))
}

/// Whether an event is about entity `id`.
pub open spec fn about(id: EntityId) -> spec_fn(EventModel) -> bool {
    |e: EventModel| e.entity_id == id
}

/// Each entry of the folded view is the materialization of that entity's
/// events.
pub proof fn lemma_lww_fold_materializes(s: Seq<EventModel>)
    ensures
        forall|id: EntityId| materializes_to(events_of(s, id), #[trigger] map_get(lww_fold(s), id)),
    decreases s.len(),
{
    if s.len() > 0 {
        let t = s.drop_last();
        let e = s.last();
        lemma_lww_fold_materializes(t);
        assert(s == t.push(e));
        assert forall|id: EntityId| materializes_to(events_of(s, id), #[trigger] map_get(lww_fold(s), id)) by {
            let pred = about(id);
            t.lemma_filter_push(e, pred);
            let f = events_of(t, id);
            assert(materializes_to(f, map_get(lww_fold(t), id)));
            if e.entity_id == id {
                let f2 = f.push(e);
                assert(events_of(s, id) == f2);
                match map_get(lww_fold(t), id) {
                    None => {
                        assert(f2 =~= seq![e]);
                        assert(map_get(lww_fold(s), id) == Some(entity_of(e)));
                        assert(f2[0] == e);
                        assert(is_latest(f2, e));
                    },
                    Some(m) => {
                        let w = choose|w: EventModel| is_latest(f, w) && m == entity_of(w);
                        let iw = choose|i: int| 0 <= i < f.len() && f[i] == w;
                        if hlc_lt(w.hlc, e.hlc) {
                            assert(map_get(lww_fold(s), id) == Some(entity_of(e)));
                            assert(f2[f.len() as int] == e);
                            assert forall|j: int| 0 <= j < f2.len() implies !hlc_lt(e.hlc, #[trigger] f2[j].hlc) by {
                                if j < f.len() {
                                    assert(f2[j] == f[j]);
                                    crate::hlc::lemma_hlc_total(w.hlc, f[j].hlc);
                                    crate::hlc::lemma_hlc_total(e.hlc, f[j].hlc);
                                }
                            }
                            assert(is_latest(f2, e));
                        } else {
                            assert(map_get(lww_fold(s), id) == Some(m));
                            assert(f2[iw] == w);
                            assert forall|j: int| 0 <= j < f2.len() implies !hlc_lt(w.hlc, #[trigger] f2[j].hlc) by {
                                if j < f.len() {
                                    assert(f2[j] == f[j]);
                                }
                            }
                            assert(is_latest(f2, w));
                        }
                    },
                }
            } else {
                assert(events_of(s, id) == f);
                assert(map_get(lww_fold(s), id) == map_get(lww_fold(t), id));
            }
        }
    }
}

/// Convergence: nodes that hold the same set of events, whose distinct
/// events carry distinct timestamps, reach the same entity view, whatever
/// order and however many times each applied them.
pub proof fn lemma_lww_convergence(s1: Seq<EventModel>, s2: Seq<EventModel>)
    requires
        s1.to_set() == s2.to_set(),
        timestamps_distinct(s1),
    ensures
        lww_fold(s1) == lww_fold(s2),
{
    lemma_lww_fold_materializes(s1);
    lemma_lww_fold_materializes(s2);
    assert forall|x: EventModel| s1.contains(x) <==> s2.contains(x) by {
        assert(s1.to_set().contains(x) == s1.contains(x));
        assert(s2.to_set().contains(x) == s2.contains(x));
    }
    assert forall|id: EntityId| #[trigger] map_get(lww_fold(s1), id) == map_get(lww_fold(s2), id) by {
        let pred = about(id);
        let f1 = events_of(s1, id);
        let f2 = events_of(s2, id);
        broadcast use vstd::seq_lib::group_filter_ensures;

        assert forall|x: EventModel| f1.contains(x) <==> f2.contains(x) by {
            if f1.contains(x) {
                s1.lemma_filter_contains_rev(pred, x);
                let i = choose|i: int| 0 <= i < f1.len() && f1[i] == x;
                assert(pred(f1[i]));
                let k = choose|k: int| 0 <= k < s2.len() && s2[k] == x;
                s2.lemma_filter_contains(pred, k);
            }
            if f2.contains(x) {
                s2.lemma_filter_contains_rev(pred, x);
                let i = choose|i: int| 0 <= i < f2.len() && f2[i] == x;
                assert(pred(f2[i]));
                let k = choose|k: int| 0 <= k < s1.len() && s1[k] == x;
                s1.lemma_filter_contains(pred, k);
            }
        }
        assert(f1.to_set() =~= f2.to_set());
        assert forall|i: int, j: int| 0 <= i < f1.len() && 0 <= j < f1.len() && #[trigger] f1[i].hlc == #[trigger] f1[j].hlc implies f1[i] == f1[j] by {
            assert(f1.contains(f1[i]));
            assert(f1.contains(f1[j]));
            s1.lemma_filter_contains_rev(pred, f1[i]);
            s1.lemma_filter_contains_rev(pred, f1[j]);
            let a = choose|a: int| 0 <= a < s1.len() && s1[a] == f1[i];
            let b = choose|b: int| 0 <= b < s1.len() && s1[b] == f1[j];
            assert(s1[a].hlc == s1[b].hlc);
        }
        lemma_materialize_order_independent(f1, f2, map_get(lww_fold(s1), id), map_get(lww_fold(s2), id));
    }
    assert(lww_fold(s1) =~= lww_fold(s2)) by {
        assert forall|id: EntityId| lww_fold(s1).contains_key(id) <==> lww_fold(s2).contains_key(id) by {
            assert(map_get(lww_fold(s1), id) == map_get(lww_fold(s2), id));
        }
        assert forall|id: EntityId| lww_fold(s1).contains_key(id) implies lww_fold(s1)[id] == lww_fold(s2)[id] by {
            assert(map_get(lww_fold(s1), id) == map_get(lww_fold(s2), id));
        }
    }
}

/// The entity view: entities keyed by the 128-bit value of their id.
pub struct InMemoryEntityStore {
    entities: HashMap<u128, Entity>,
}

impl View for InMemoryEntityStore {
    type V = Map<EntityId, EntityModel>;

    closed spec fn view(&self) -> Map<EntityId, EntityModel> {
        Map::new(|k: EntityId| self.entities@.contains_key(k.0), |k: EntityId| self.entities@[k.0]@)
    }
}

impl InMemoryEntityStore {
    /// Each entity is stored under its own id.
    pub closed spec fn wf(&self) -> bool {
        forall|k: u128| #[trigger] self.entities@.contains_key(k) ==> self.entities@[k].id.0 == k
    }

    pub fn new() -> (r: Self)
        ensures
            r.wf(),
            r@ == Map::<EntityId, EntityModel>::empty(),
    {
        let r = InMemoryEntityStore { entities: HashMap::new() };
        assert(r@ =~= Map::<EntityId, EntityModel>::empty());
        r
    }

    /// The entity with id `id`, if any.
    pub fn get(&self, id: EntityId) -> (r: Result<Option<Entity>, StorageError>)
        ensures
            r is Ok,
            crate::entity::opt_entity(r->Ok_0) == if self@.contains_key(id) {
                Some(self@[id])
            } else {
                None::<EntityModel>
            },
    {
        match self.entities.get(&id.0) {
            Some(e) => Ok(Some(e.duplicate())),
            None => Ok(None),
        }
    }

    /// Every stored entity, tombstoned ones included, each once.
    pub fn get_all(&self) -> (r: Result<Vec<Entity>, StorageError>)
        requires
            self.wf(),
        ensures
            r is Ok,
            ids_unique(entity_views(r->Ok_0@)),
            as_map(entity_views(r->Ok_0@)) == self@,
    {
        let mut out: Vec<Entity> = Vec::new();
        let ghost mut seen: Seq<u128> = Seq::empty();
        for k in it: self.entities.keys()
            invariant
                self.wf(),
                it.seq().unref().to_set() == self.entities@.dom(),
                it.seq().unref().no_duplicates(),
                seen == it.seq().unref().take(it.index() as int),
                it.index() == it.seq().len() ==> seen == it.seq().unref(),
                out@.len() == seen.len(),
                forall|i: int| 0 <= i < seen.len() ==> #[trigger] out@[i].id.0 == seen[i],
                forall|i: int| 0 <= i < seen.len() ==> out@[i]@ == self.entities@[#[trigger] seen[i]]@,
        {
            let ghost keys = it.seq().unref();
            proof {
                assert(keys[it.index() as int] == *k);
                assert(keys.to_set().contains(*k));
                assert(self.entities@.contains_key(*k));
                assert(keys.take(it.index() + 1) == seen.push(*k));
            }
            match self.entities.get(k) {
                Some(e) => {
                    out.push(e.duplicate());
                },
                None => {
                    assert(false);
                },
            }
            proof {
                seen = seen.push(*k);
            }
        }
        let ghost v = entity_views(out@);
        assert(ids_unique(v)) by {
            assert forall|a: int, b: int| 0 <= a < v.len() && 0 <= b < v.len() && #[trigger] v[a].id == #[trigger] v[b].id implies a == b by {
                assert(out@[a].id.0 == out@[b].id.0);
                assert(seen[a] == seen[b]);
            }
        }
        proof {
            lemma_as_map(v);
            assert(seen.to_set() == self.entities@.dom());
            assert forall|k: EntityId| #[trigger] as_map(v).contains_key(k) <==> self@.contains_key(k) by {
                if as_map(v).contains_key(k) {
                    let i = choose|i: int| 0 <= i < v.len() && v[i].id == k;
                    assert(out@[i].id.0 == seen[i]);
                    assert(seen.to_set().contains(seen[i]));
                }
                if self@.contains_key(k) {
                    assert(self.entities@.dom().contains(k.0));
                    assert(seen.to_set().contains(k.0));
                    let i = choose|i: int| 0 <= i < seen.len() && seen[i] == k.0;
                    assert(out@[i].id.0 == k.0);
                    assert(v[i].id == k);
                }
            }
            assert forall|k: EntityId| #[trigger] as_map(v).contains_key(k) implies as_map(v)[k] == self@[k] by {
                let i = choose|i: int| 0 <= i < v.len() && v[i].id == k;
                assert(as_map(v)[v[i].id] == v[i]);
                assert(out@[i]@ == self.entities@[seen[i]]@);
                assert(out@[i].id.0 == seen[i]);
            }
            assert(as_map(v) =~= self@);
        }
        Ok(out)
    }

    /// Store `entity` unless an entity with its id and a timestamp at least
    /// as recent is already there.
    pub fn upsert(&mut self, entity: Entity) -> (r: Result<(), StorageError>)
        requires
            old(self).wf(),
        ensures
            r is Ok,
            final(self).wf(),
            final(self)@ == lww_upsert(old(self)@, entity@),
    {
        let key = entity.id.0;
        if let Some(existing) = self.entities.get(&key) {
            if !existing.hlc.is_before(&entity.hlc) {
                return Ok(());
            }
        }
        let ghost e = entity@;
        self.entities.insert(key, entity);
        assert(self@ =~= old(self)@.insert(e.id, e));
        Ok(())
    }

    /// Remove the entity with id `id`; returns whether there was one.
    pub fn delete(&mut self, id: EntityId) -> (r: Result<bool, StorageError>)
        requires
            old(self).wf(),
        ensures
            final(self).wf(),
            r == Ok::<bool, StorageError>(old(self)@.contains_key(id)),
            final(self)@ == old(self)@.remove(id),
    {
        let removed = self.entities.remove(&id.0);
        assert(self@ =~= old(self)@.remove(id));
        Ok(removed.is_some())
    }
}

} // verus!
