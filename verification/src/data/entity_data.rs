use vstd::prelude::*;

use crate::types::archetype_type::{strictly_increasing, ArchetypeType};
use crate::types::component_id::ComponentId;
use crate::types::entity_id::EntityId;

verus! {

/// The identifiers of a listing of component values, in its order.
pub open spec fn listed_ids<TComponent>(s: Seq<(ComponentId, TComponent)>) -> Seq<ComponentId> {
    Seq::new(s.len(), |i: int| s[i].0)
}

/// The listing holds a value for `id`.
pub open spec fn has_component<TComponent>(s: Seq<(ComponentId, TComponent)>, id: ComponentId) -> bool {
    exists|i: int| 0 <= i < s.len() && (#[trigger] s[i]).0 == id
}

/// A place in the listing where `id` stands.
pub open spec fn place_of<TComponent>(s: Seq<(ComponentId, TComponent)>, id: ComponentId) -> int {
    choose|i: int| 0 <= i < s.len() && (#[trigger] s[i]).0 == id
}

/// The listing read as a map from component to value.
pub open spec fn as_map<TComponent>(s: Seq<(ComponentId, TComponent)>) -> Map<
    ComponentId,
    TComponent,
> {
    Map::new(
        |id: ComponentId| has_component(s, id),
        |id: ComponentId| s[place_of(s, id)].1,
    )
}

/// In a canonical listing the value of a component is the one listed with it.
pub proof fn lemma_value_at<TComponent>(s: Seq<(ComponentId, TComponent)>, i: int)
    requires
        strictly_increasing(listed_ids(s)),
        0 <= i < s.len(),
    ensures
        as_map(s).dom().contains(s[i].0),
        as_map(s)[s[i].0] == s[i].1,
{
    let id = s[i].0;
    assert(has_component(s, id));
    let j = place_of(s, id);
    if j < i {
        assert(listed_ids(s)[j].id < listed_ids(s)[i].id);
    } else if i < j {
        assert(listed_ids(s)[i].id < listed_ids(s)[j].id);
    }
}

/// One entity outside of storage: its handle and one value for each of its
/// components, listed in the canonical order of their identifiers.
pub struct EntityData<TComponent> {
    pub entity_id: EntityId,
    pub entity_components: Vec<(ComponentId, TComponent)>,
}

impl<TComponent> View for EntityData<TComponent> {
    type V = (EntityId, Seq<(ComponentId, TComponent)>);

    open spec fn view(&self) -> (EntityId, Seq<(ComponentId, TComponent)>) {
        (self.entity_id, self.entity_components@)
    }
}

impl<TComponent> EntityData<TComponent> {
    /// The components are listed in canonical order, each once.
    pub open spec fn wf(&self) -> bool {
        strictly_increasing(listed_ids(self.entity_components@))
    }

    /// The components as a map from identifier to value.
    pub open spec fn components(&self) -> Map<ComponentId, TComponent> {
        as_map(self.entity_components@)
    }

    /// An entity without components.
    pub fn new(entity_id: EntityId) -> (r: Self)
        ensures
            r.wf(),
            r.entity_id == entity_id,
            r.entity_components@.len() == 0,
            r.components() == Map::<ComponentId, TComponent>::empty(),
    {
        let r = Self { entity_id, entity_components: Vec::new() };
        assert(r.components() =~= Map::<ComponentId, TComponent>::empty());
        r
    }

    /// How many listed identifiers are smaller than `component_id`: where the
    /// component stands, or would stand, in the listing.
    fn rank(&self, component_id: ComponentId) -> (p: usize)
        requires
            self.wf(),
        ensures
            p <= self.entity_components@.len(),
            forall|k: int| 0 <= k < p ==> (#[trigger] self.entity_components@[k]).0.id < component_id.id,
            forall|k: int|
                p <= k < self.entity_components@.len() ==> (#[trigger] self.entity_components@[k]).0.id
                    >= component_id.id,
    {
        let mut p: usize = 0;
        while p < self.entity_components.len() && self.entity_components[p].0.id < component_id.id
            invariant
                p <= self.entity_components.len(),
                forall|k: int|
                    0 <= k < p ==> (#[trigger] self.entity_components@[k]).0.id < component_id.id,
            decreases self.entity_components.len() - p,
        {
            p += 1;
        }
        proof {
            assert forall|k: int| p <= k < self.entity_components@.len() implies (
            #[trigger] self.entity_components@[k]).0.id >= component_id.id by {
                if k > p {
                    assert(listed_ids(self.entity_components@)[p as int].id < listed_ids(
                        self.entity_components@,
                    )[k].id);
                }
            }
        }
        p
    }

    /// Gives the entity the component `component_id` with value `component`,
    /// in place of the value it had for it, if any.
    pub fn add_component(&mut self, component_id: ComponentId, component: TComponent) -> (r:
        &mut Self)
        requires
            old(self).wf(),
        ensures
            r.wf(),
            r.entity_id == old(self).entity_id,
            r.components() == old(self).components().insert(component_id, component),
            *final(self) == *final(r),
    {
        let p = self.rank(component_id);
        let ghost before = self.entity_components@;
        if p < self.entity_components.len() && self.entity_components[p].0.id == component_id.id {
            self.entity_components.set(p, (component_id, component));
            proof {
                let after = self.entity_components@;
                assert(listed_ids(after) =~= listed_ids(before));
                assert forall|c: ComponentId| has_component(after, c) <==> has_component(before, c)
                    || c == component_id by {
                    if has_component(after, c) {
                        let i = choose|i: int| 0 <= i < after.len() && (#[trigger] after[i]).0 == c;
                        assert(before[i].0 == c);
                    }
                    if has_component(before, c) {
                        let i = choose|i: int|
                            0 <= i < before.len() && (#[trigger] before[i]).0 == c;
                        assert(after[i].0 == c);
                    }
                    if c == component_id {
                        assert(after[p as int].0 == c);
                    }
                }
                assert forall|c: ComponentId| has_component(after, c) implies as_map(after)[c]
                    == as_map(before).insert(component_id, component)[c] by {
                    let i = choose|i: int| 0 <= i < after.len() && (#[trigger] after[i]).0 == c;
                    lemma_value_at(after, i);
                    if c != component_id {
                        assert(before[i].0 == c);
                        lemma_value_at(before, i);
                    } else {
                        lemma_value_at(after, p as int);
                    }
                }
                assert(as_map(after) =~= as_map(before).insert(component_id, component));
            }
        } else {
            self.entity_components.insert(p, (component_id, component));
            proof {
                let after = self.entity_components@;
                assert forall|i: int, j: int| 0 <= i < j < after.len() implies listed_ids(
                    after,
                )[i].id < listed_ids(after)[j].id by {
                    let bi = if i < p { i } else { i - 1 };
                    let bj = if j < p { j } else { j - 1 };
                    if i != p && j != p {
                        assert(listed_ids(before)[bi].id < listed_ids(before)[bj].id);
                    } else if i == p {
                        assert(before[bj].0.id >= component_id.id);
                        if bj > p {
                            assert(listed_ids(before)[p as int].id < listed_ids(before)[bj].id);
                            assert(before[p as int].0.id >= component_id.id);
                        }
                    } else {
                        assert(before[bi].0.id < component_id.id);
                    }
                }
                assert forall|c: ComponentId| has_component(after, c) <==> has_component(before, c)
                    || c == component_id by {
                    if has_component(after, c) {
                        let i = choose|i: int| 0 <= i < after.len() && (#[trigger] after[i]).0 == c;
                        if i < p {
                            assert(before[i].0 == c);
                        } else if i > p {
                            assert(before[i - 1].0 == c);
                        }
                    }
                    if has_component(before, c) {
                        let i = choose|i: int|
                            0 <= i < before.len() && (#[trigger] before[i]).0 == c;
                        if i < p {
                            assert(after[i].0 == c);
                        } else {
                            assert(after[i + 1].0 == c);
                        }
                    }
                    if c == component_id {
                        assert(after[p as int].0 == c);
                    }
                }
                assert forall|c: ComponentId| has_component(after, c) implies as_map(after)[c]
                    == as_map(before).insert(component_id, component)[c] by {
                    let i = choose|i: int| 0 <= i < after.len() && (#[trigger] after[i]).0 == c;
                    lemma_value_at(after, i);
                    if c != component_id {
                        if i < p {
                            assert(before[i].0 == c);
                            lemma_value_at(before, i);
                        } else {
                            assert(i > p);
                            assert(before[i - 1].0 == c);
                            lemma_value_at(before, i - 1);
                        }
                    } else {
                        lemma_value_at(after, p as int);
                    }
                }
                assert(as_map(after) =~= as_map(before).insert(component_id, component));
            }
        }
        self
    }

    /// Takes the component `component_id` from the entity, if it has it.
    pub fn remove_component(&mut self, component_id: &ComponentId) -> (r: &mut Self)
        requires
            old(self).wf(),
        ensures
            r.wf(),
            r.entity_id == old(self).entity_id,
            r.components() == old(self).components().remove(*component_id),
            *final(self) == *final(r),
    {
        let p = self.rank(*component_id);
        let ghost before = self.entity_components@;
        if p < self.entity_components.len() && self.entity_components[p].0.id == component_id.id {
            let _ = self.entity_components.remove(p);
            proof {
                let after = self.entity_components@;
                assert forall|i: int, j: int| 0 <= i < j < after.len() implies listed_ids(
                    after,
                )[i].id < listed_ids(after)[j].id by {
                    let bi = if i < p { i } else { i + 1 };
                    let bj = if j < p { j } else { j + 1 };
                    assert(listed_ids(before)[bi].id < listed_ids(before)[bj].id);
                }
                assert forall|c: ComponentId| has_component(after, c) <==> has_component(before, c)
                    && c != *component_id by {
                    if has_component(after, c) {
                        let i = choose|i: int| 0 <= i < after.len() && (#[trigger] after[i]).0 == c;
                        if i < p {
                            assert(before[i].0 == c);
                            assert(listed_ids(before)[i].id < listed_ids(before)[p as int].id);
                        } else {
                            assert(before[i + 1].0 == c);
                            assert(listed_ids(before)[p as int].id < listed_ids(before)[i + 1].id);
                        }
                    }
                    if has_component(before, c) && c != *component_id {
                        let i = choose|i: int|
                            0 <= i < before.len() && (#[trigger] before[i]).0 == c;
                        if i < p {
                            assert(after[i].0 == c);
                        } else {
                            assert(after[i - 1].0 == c);
                        }
                    }
                }
                assert forall|c: ComponentId| has_component(after, c) implies as_map(after)[c]
                    == as_map(before)[c] by {
                    let i = choose|i: int| 0 <= i < after.len() && (#[trigger] after[i]).0 == c;
                    lemma_value_at(after, i);
                    if i < p {
                        assert(before[i].0 == c);
                        lemma_value_at(before, i);
                    } else {
                        assert(before[i + 1].0 == c);
                        lemma_value_at(before, i + 1);
                    }
                }
                assert(as_map(after) =~= as_map(before).remove(*component_id));
            }
        } else {
            proof {
                if has_component(before, *component_id) {
                    let i = choose|i: int|
                        0 <= i < before.len() && (#[trigger] before[i]).0 == *component_id;
                    assert(before[i].0.id == component_id.id);
                    if i > p {
                        assert(listed_ids(before)[p as int].id < listed_ids(before)[i].id);
                        assert(before[p as int].0.id >= component_id.id);
                    }
                }
                assert(as_map(before) =~= as_map(before).remove(*component_id));
            }
        }
        self
    }

    /// The key of the archetype that the entity belongs to: the set of its
    /// components.
    pub fn build_archetype_type(&self) -> (r: ArchetypeType)
        requires
            self.wf(),
        ensures
            r.wf(),
            r.component_ids@ == listed_ids(self.entity_components@),
            r@ == self.components().dom(),
    {
        let mut ids: Vec<ComponentId> = Vec::new();
        let mut i: usize = 0;
        while i < self.entity_components.len()
            invariant
                i <= self.entity_components.len(),
                ids@ == listed_ids(self.entity_components@).subrange(0, i as int),
            decreases self.entity_components.len() - i,
        {
            ids.push(self.entity_components[i].0);
            assert(ids@ =~= listed_ids(self.entity_components@).subrange(0, i + 1));
            i += 1;
        }
        assert(ids@ =~= listed_ids(self.entity_components@));
        let r = ArchetypeType { component_ids: ids };
        proof {
            assert forall|c: ComponentId| r@.contains(c) <==> self.components().dom().contains(
                c,
            ) by {
                if r.component_ids@.contains(c) {
                    let i = choose|i: int|
                        0 <= i < r.component_ids@.len() && r.component_ids@[i] == c;
                    assert(self.entity_components@[i].0 == c);
                }
                if has_component(self.entity_components@, c) {
                    let i = choose|i: int|
                        0 <= i < self.entity_components@.len() && (
                        #[trigger] self.entity_components@[i]).0 == c;
                    assert(r.component_ids@[i] == c);
                }
            }
            assert(r@ =~= self.components().dom());
        }
        r
    }
}

} // verus!
