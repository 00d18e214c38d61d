use vstd::prelude::*;

use crate::data::archetype::ArchetypeChunk;
use crate::data::entity_data::has_component;
use crate::types::component_id::ComponentId;

verus! {

/// `selection` lists the component `c` with the access mode `readonly`.
pub open spec fn requests(
    selection: Option<Vec<(ComponentId, bool)>>,
    c: ComponentId,
    readonly: bool,
) -> bool {
    selection matches Some(list) && list@.contains((c, readonly))
}

/// Every handle in `handles` is the number of the array of its component.
pub open spec fn points_into(handles: Seq<(ComponentId, usize)>, ids: Seq<ComponentId>) -> bool {
    forall|i: int|
        0 <= i < handles.len() ==> (#[trigger] handles[i]).1 < ids.len() && ids[handles[i].1 as int]
            == handles[i].0
}

/// No component has two handles in `handles`.
pub open spec fn one_each(handles: Seq<(ComponentId, usize)>) -> bool {
    forall|i: int, j: int|
        0 <= i < j < handles.len() ==> (#[trigger] handles[i]).0 != (#[trigger] handles[j]).0
}

/// The handles that a system holds on the component arrays of one chunk:
/// read-only ones and read-write ones. A handle is the number of the array in
/// the chunk; the chunk is named by the number of its archetype and its own
/// number there.
pub struct ChunkDataAccessor {
    pub archetype_number: usize,
    pub chunk_number: usize,
    pub ro_data: Vec<(ComponentId, usize)>,
    pub rw_data: Vec<(ComponentId, usize)>,
}

/// Where the component `c` has its handle in `handles`, if it has one.
fn find_handle(handles: &Vec<(ComponentId, usize)>, c: ComponentId) -> (r: Option<usize>)
    ensures
        r.is_some() == has_component(handles@, c),
        r matches Some(i) ==> i < handles@.len() && handles@[i as int].0 == c,
{
    let mut i: usize = 0;
    while i < handles.len()
        invariant
            i <= handles.len(),
            forall|k: int| 0 <= k < i ==> (#[trigger] handles@[k]).0 != c,
        decreases handles.len() - i,
    {
        if handles[i].0.id == c.id {
            return Some(i);
        }
        i += 1;
    }
    None
}

/// Whether no component has two handles in `handles`.
fn has_one_each(handles: &Vec<(ComponentId, usize)>) -> (r: bool)
    ensures
        r == one_each(handles@),
{
    let mut j: usize = 0;
    while j < handles.len()
        invariant
            j <= handles.len(),
            forall|a: int, b: int|
                0 <= a < b < j ==> (#[trigger] handles@[a]).0 != (#[trigger] handles@[b]).0,
        decreases handles.len() - j,
    {
        let mut i: usize = 0;
        while i < j
            invariant
                i <= j < handles.len(),
                forall|a: int| 0 <= a < i ==> (#[trigger] handles@[a]).0 != handles@[j as int].0,
            decreases j - i,
        {
            if handles[i].0.id == handles[j].0.id {
                assert(handles@[i as int].0 == handles@[j as int].0);
                return false;
            }
            i += 1;
        }
        j += 1;
    }
    true
}

/// Gives the component `c` the handle `j`, unless it has one.
fn put_handle(handles: &mut Vec<(ComponentId, usize)>, c: ComponentId, j: usize)
    requires
        one_each(old(handles)@),
    ensures
        one_each(final(handles)@),
        forall|d: ComponentId|
            has_component(final(handles)@, d) <==> has_component(old(handles)@, d) || d == c,
        forall|i: int| 0 <= i < old(handles)@.len() ==> final(handles)@[i] == old(handles)@[i],
        final(handles)@.len() == old(handles)@.len() || final(handles)@ == old(handles)@.push(
            (c, j),
        ),
{
    if find_handle(handles, c).is_none() {
        handles.push((c, j));
        proof {
            let before = old(handles)@;
            let after = handles@;
            assert(after[before.len() as int].0 == c);
            assert forall|d: ComponentId| has_component(after, d) <==> has_component(before, d) || d
                == c by {
                if has_component(after, d) {
                    let i = choose|i: int| 0 <= i < after.len() && (#[trigger] after[i]).0 == d;
                    if i < before.len() {
                        assert(before[i].0 == d);
                    }
                }
                if has_component(before, d) {
                    let i = choose|i: int| 0 <= i < before.len() && (#[trigger] before[i]).0 == d;
                    assert(after[i].0 == d);
                }
            }
            assert forall|i: int, k: int| 0 <= i < k < after.len() implies (#[trigger] after[i]).0 != (
            #[trigger] after[k]).0 by {
                if k < before.len() {
                    assert(before[i].0 != before[k].0);
                } else {
                    assert(before[i].0 != c);
                }
            }
        }
    }
}

impl ChunkDataAccessor {
    /// The accessor holds a read-only handle for the component `c`.
    pub open spec fn reads(&self, c: ComponentId) -> bool {
        has_component(self.ro_data@, c)
    }

    /// The accessor holds a read-write handle for the component `c`.
    pub open spec fn writes(&self, c: ComponentId) -> bool {
        has_component(self.rw_data@, c)
    }

    /// Each handle is the number of its component's array in a chunk with the
    /// components `ids`, and no component has two handles of one mode.
    pub open spec fn wf(&self, ids: Seq<ComponentId>) -> bool {
        &&& points_into(self.ro_data@, ids)
        &&& points_into(self.rw_data@, ids)
        &&& one_each(self.ro_data@)
        &&& one_each(self.rw_data@)
    }

    /// An accessor without handles, for the chunk `chunk_number` of the
    /// archetype `archetype_number`.
    pub fn new(archetype_number: usize, chunk_number: usize) -> (r: Self)
        ensures
            r.archetype_number == archetype_number,
            r.chunk_number == chunk_number,
            r.ro_data@.len() == 0,
            r.rw_data@.len() == 0,
    {
        Self { archetype_number, chunk_number, ro_data: Vec::new(), rw_data: Vec::new() }
    }

    /// Whether no component has two handles of one mode, as the taking of a
    /// handle asks.
    pub fn handles_distinct(&self) -> (r: bool)
        ensures
            r == (one_each(self.ro_data@) && one_each(self.rw_data@)),
    {
        has_one_each(&self.ro_data) && has_one_each(&self.rw_data)
    }

    /// Adds a handle for each listed component that the chunk has: read-only
    /// where the listing says `true`, read-write where it says `false`.
    /// Components that the chunk does not have get no handle.
    pub fn fill_data_from_chunk<TComponent>(
        &mut self,
        select_components: &Option<Vec<(ComponentId, bool)>>,
        chunk: &ArchetypeChunk<TComponent>,
    )
        requires
            chunk.wf(),
            old(self).wf(chunk.archetype_type.component_ids@),
        ensures
            final(self).wf(chunk.archetype_type.component_ids@),
            final(self).archetype_number == old(self).archetype_number,
            final(self).chunk_number == old(self).chunk_number,
            forall|c: ComponentId| #![trigger final(self).reads(c)]
                final(self).reads(c) <==> old(self).reads(c) || (chunk.archetype_type@.contains(c)
                    && requests(*select_components, c, true)),
            forall|c: ComponentId| #![trigger final(self).writes(c)]
                final(self).writes(c) <==> old(self).writes(c) || (chunk.archetype_type@.contains(c)
                    && requests(*select_components, c, false)),
    {
        match select_components {
            None => {},
            Some(list) => {
                let ghost ids = chunk.archetype_type.component_ids@;
                let mut i: usize = 0;
                while i < list.len()
                    invariant
                        i <= list.len(),
                        ids == chunk.archetype_type.component_ids@,
                        *select_components == Some(*list),
                        self.wf(ids),
                        self.archetype_number == old(self).archetype_number,
                        self.chunk_number == old(self).chunk_number,
                        forall|c: ComponentId| #![trigger self.reads(c)]
                            self.reads(c) <==> old(self).reads(c) || (ids.contains(c)
                                && list@.subrange(0, i as int).contains((c, true))),
                        forall|c: ComponentId| #![trigger self.writes(c)]
                            self.writes(c) <==> old(self).writes(c) || (ids.contains(c)
                                && list@.subrange(0, i as int).contains((c, false))),
                    decreases list.len() - i,
                {
                    let c = list[i].0;
                    let readonly = list[i].1;
                    let ghost prev = *self;
                    let ghost seen = list@.subrange(0, i as int);
                    let ghost next = list@.subrange(0, i + 1);
                    proof {
                        assert(list@[i as int] == (c, readonly));
                        assert(next =~= seen.push((c, readonly)));
                        crate::behavior::graph::lemma_push_contains(seen, (c, readonly));
                        assert(chunk.archetype_type@.contains(c) == ids.contains(c));
                    }
                    match chunk.archetype_type.position(c) {
                        Some(j) => {
                            if readonly {
                                put_handle(&mut self.ro_data, c, j);
                            } else {
                                put_handle(&mut self.rw_data, c, j);
                            }
                        },
                        None => {},
                    }
                    proof {
                        assert forall|d: ComponentId| #![trigger self.reads(d)]
                            self.reads(d) <==> old(self).reads(d) || (ids.contains(d)
                                && next.contains((d, true))) by {
                            assert(next.contains((d, true)) <==> seen.contains((d, true)) || (d, true)
                                == (c, readonly));
                            assert(prev.reads(d) <==> old(self).reads(d) || (ids.contains(d)
                                && seen.contains((d, true))));
                        }
                        assert forall|d: ComponentId| #![trigger self.writes(d)]
                            self.writes(d) <==> old(self).writes(d) || (ids.contains(d)
                                && next.contains((d, false))) by {
                            assert(next.contains((d, false)) <==> seen.contains((d, false)) || (
                                d,
                                false,
                            ) == (c, readonly));
                            assert(prev.writes(d) <==> old(self).writes(d) || (ids.contains(d)
                                && seen.contains((d, false))));
                        }
                    }
                    i += 1;
                }
                assert(list@.subrange(0, i as int) =~= list@);
                assert forall|c: ComponentId| chunk.archetype_type@.contains(c) == ids.contains(c) by {}
            },
        }
    }

    /// Takes the read-only handle of the component `component_id`, if the
    /// accessor holds one.
    pub fn resolve_ro_components(&mut self, component_id: ComponentId) -> (r: Option<usize>)
        requires
            one_each(old(self).ro_data@),
        ensures
            r.is_some() == old(self).reads(component_id),
            r matches Some(j) ==> old(self).ro_data@.contains((component_id, j)),
            final(self).rw_data@ == old(self).rw_data@,
            final(self).archetype_number == old(self).archetype_number,
            final(self).chunk_number == old(self).chunk_number,
            one_each(final(self).ro_data@),
            forall|c: ComponentId|
                final(self).reads(c) <==> old(self).reads(c) && c != component_id,
            forall|h: (ComponentId, usize)|
                final(self).ro_data@.contains(h) ==> old(self).ro_data@.contains(h),
    {
        match find_handle(&self.ro_data, component_id) {
            None => None,
            Some(i) => {
                let handle = self.ro_data.remove(i);
                proof {
                    lemma_handle_removed(old(self).ro_data@, i as int);
                }
                Some(handle.1)
            },
        }
    }

    /// Takes the read-write handle of the component `component_id`, if the
    /// accessor holds one.
    pub fn resolve_rw_components(&mut self, component_id: ComponentId) -> (r: Option<usize>)
        requires
            one_each(old(self).rw_data@),
        ensures
            r.is_some() == old(self).writes(component_id),
            r matches Some(j) ==> old(self).rw_data@.contains((component_id, j)),
            final(self).ro_data@ == old(self).ro_data@,
            final(self).archetype_number == old(self).archetype_number,
            final(self).chunk_number == old(self).chunk_number,
            one_each(final(self).rw_data@),
            forall|c: ComponentId|
                final(self).writes(c) <==> old(self).writes(c) && c != component_id,
            forall|h: (ComponentId, usize)|
                final(self).rw_data@.contains(h) ==> old(self).rw_data@.contains(h),
    {
        match find_handle(&self.rw_data, component_id) {
            None => None,
            Some(i) => {
                let handle = self.rw_data.remove(i);
                proof {
                    lemma_handle_removed(old(self).rw_data@, i as int);
                }
                Some(handle.1)
            },
        }
    }

    /// Whether the accessor holds a handle, of either mode, for the component
    /// `component_id`.
    pub fn contains(&self, component_id: ComponentId) -> (r: bool)
        ensures
            r == (self.reads(component_id) || self.writes(component_id)),
    {
        find_handle(&self.ro_data, component_id).is_some() || find_handle(
            &self.rw_data,
            component_id,
        ).is_some()
    }
}

/// Taking one handle out leaves the others, and nothing for its component.
proof fn lemma_handle_removed(handles: Seq<(ComponentId, usize)>, i: int)
    requires
        one_each(handles),
        0 <= i < handles.len(),
    ensures
        one_each(handles.remove(i)),
        handles.contains(handles[i]),
        forall|c: ComponentId|
            has_component(handles.remove(i), c) <==> has_component(handles, c) && c != handles[i].0,
        forall|h: (ComponentId, usize)| handles.remove(i).contains(h) ==> handles.contains(h),
{
    let after = handles.remove(i);
    assert forall|a: int, b: int| 0 <= a < b < after.len() implies (#[trigger] after[a]).0 != (
    #[trigger] after[b]).0 by {
        let x = if a < i { a } else { a + 1 };
        let y = if b < i { b } else { b + 1 };
        assert(handles[x].0 != handles[y].0);
    }
    assert forall|c: ComponentId|
        has_component(after, c) <==> has_component(handles, c) && c != handles[i].0 by {
        if has_component(after, c) {
            let a = choose|a: int| 0 <= a < after.len() && (#[trigger] after[a]).0 == c;
            let x = if a < i { a } else { a + 1 };
            assert(handles[x].0 == c);
            if x < i {
                assert(handles[x].0 != handles[i].0);
            } else {
                assert(handles[i].0 != handles[x].0);
            }
        }
        if has_component(handles, c) && c != handles[i].0 {
            let x = choose|x: int| 0 <= x < handles.len() && (#[trigger] handles[x]).0 == c;
            if x < i {
                assert(after[x].0 == c);
            } else {
                assert(after[x - 1].0 == c);
            }
        }
    }
    assert forall|h: (ComponentId, usize)| after.contains(h) implies handles.contains(h) by {
        let a = choose|a: int| 0 <= a < after.len() && after[a] == h;
        let x = if a < i { a } else { a + 1 };
        assert(handles[x] == h);
    }
}

} // verus!
