use vstd::prelude::*;

use crate::data::component_info::ComponentInfo;
use crate::data::registered_component;
use crate::types::component_id::ComponentId;

verus! {

/// `ids` is strictly increasing by identifier: the one canonical listing of its set.
pub open spec fn strictly_increasing(ids: Seq<ComponentId>) -> bool {
    forall|i: int, j: int| 0 <= i < j < ids.len() ==> ids[i].id < ids[j].id
}

/// A set of component identifiers has exactly one canonical listing.
pub proof fn lemma_canonical_listing_unique(a: Seq<ComponentId>, b: Seq<ComponentId>)
    requires
        strictly_increasing(a),
        strictly_increasing(b),
        a.to_set() == b.to_set(),
    ensures
        a == b,
    decreases a.len(),
{
    if a.len() == 0 {
        if b.len() > 0 {
            assert(b.contains(b[0]));
            assert(b.to_set().contains(b[0]));
            assert(a.contains(b[0]));
        }
        assert(a =~= b);
    } else {
        let x = a.last();
        assert(a.contains(x));
        assert(b.to_set().contains(x));
        assert(b.contains(x));
        let y = b.last();
        assert(b.contains(y));
        assert(a.to_set().contains(y));
        assert(a.contains(y));
        let jx = choose|j: int| 0 <= j < b.len() && b[j] == x;
        let iy = choose|i: int| 0 <= i < a.len() && a[i] == y;
        assert(x.id <= y.id) by {
            if jx < b.len() - 1 {
                assert(b[jx].id < b[b.len() - 1].id);
            }
        }
        assert(y.id <= x.id) by {
            if iy < a.len() - 1 {
                assert(a[iy].id < a[a.len() - 1].id);
            }
        }
        assert(x == y);
        let a0 = a.drop_last();
        let b0 = b.drop_last();
        assert forall|c: ComponentId| a0.contains(c) <==> b0.contains(c) by {
            if a0.contains(c) {
                let i = choose|i: int| 0 <= i < a0.len() && a0[i] == c;
                assert(a[i] == c);
                assert(a[i].id < a[a.len() - 1].id);
                assert(a.contains(c));
                assert(b.to_set().contains(c));
                assert(b.contains(c));
                let j = choose|j: int| 0 <= j < b.len() && b[j] == c;
                assert(j < b.len() - 1);
                assert(b0[j] == c);
            }
            if b0.contains(c) {
                let j = choose|j: int| 0 <= j < b0.len() && b0[j] == c;
                assert(b[j] == c);
                assert(b[j].id < b[b.len() - 1].id);
                assert(b.contains(c));
                assert(a.to_set().contains(c));
                assert(a.contains(c));
                let i = choose|i: int| 0 <= i < a.len() && a[i] == c;
                assert(i < a.len() - 1);
                assert(a0[i] == c);
            }
        }
        assert(a0.to_set() =~= b0.to_set());
        lemma_canonical_listing_unique(a0, b0);
        assert(a =~= a0.push(x));
        assert(b =~= b0.push(y));
    }
}

/// The exact set of components that an entity has, kept as the canonical
/// (strictly increasing) listing of that set, so that two keys are equal
/// exactly when their sets are, whatever order the components were named in.
#[derive(Debug, PartialEq, Eq, Hash)]
pub struct ArchetypeType {
    pub component_ids: Vec<ComponentId>,
}

impl View for ArchetypeType {
    type V = Set<ComponentId>;

    open spec fn view(&self) -> Set<ComponentId> {
        self.component_ids@.to_set()
    }
}

impl Clone for ArchetypeType {
    fn clone(&self) -> (r: Self)
        ensures
            r.component_ids@ == self.component_ids@,
    {
        let mut ids: Vec<ComponentId> = Vec::new();
        let mut i: usize = 0;
        while i < self.component_ids.len()
            invariant
                i <= self.component_ids.len(),
                ids@ == self.component_ids@.subrange(0, i as int),
            decreases self.component_ids.len() - i,
        {
            ids.push(self.component_ids[i]);
            assert(ids@ =~= self.component_ids@.subrange(0, i + 1));
            i += 1;
        }
        assert(ids@ =~= self.component_ids@);
        Self { component_ids: ids }
    }
}

impl ArchetypeType {
    /// The listing is canonical.
    pub open spec fn wf(&self) -> bool {
        strictly_increasing(self.component_ids@)
    }

    /// The key of an entity without components.
    pub fn empty() -> (r: Self)
        ensures
            r.wf(),
            r.component_ids@ == Seq::<ComponentId>::empty(),
            r@ == Set::<ComponentId>::empty(),
    {
        let r = Self { component_ids: Vec::new() };
        assert(r@ =~= Set::<ComponentId>::empty());
        r
    }

    /// The key of the set of identifiers that occur in `ids`, in any order and
    /// any number of times.
    pub fn from_ids(ids: &Vec<ComponentId>) -> (r: Self)
        ensures
            r.wf(),
            r@ == ids@.to_set(),
    {
        let mut r = Self::empty();
        let mut i: usize = 0;
        while i < ids.len()
            invariant
                i <= ids.len(),
                r.wf(),
                r@ == ids@.subrange(0, i as int).to_set(),
            decreases ids.len() - i,
        {
            let _ = r.insert(ids[i]);
            proof {
                let before = ids@.subrange(0, i as int);
                let after = ids@.subrange(0, i + 1);
                assert(after =~= before.push(ids@[i as int]));
                assert forall|c: ComponentId|
                    after.to_set().contains(c) <==> before.to_set().insert(ids@[i as int]).contains(c) by {
                    if after.contains(c) {
                        let k = choose|k: int| 0 <= k < after.len() && after[k] == c;
                        if k < i {
                            assert(before[k] == c);
                        }
                    }
                    if before.contains(c) {
                        let k = choose|k: int| 0 <= k < before.len() && before[k] == c;
                        assert(after[k] == c);
                    }
                    if c == ids@[i as int] {
                        assert(after[i as int] == c);
                    }
                }
                assert(after.to_set() =~= before.to_set().insert(ids@[i as int]));
            }
            i += 1;
        }
        assert(ids@.subrange(0, ids.len() as int) =~= ids@);
        r
    }

    /// Adds one component to the set; tells whether it was new.
    pub fn insert(&mut self, component_id: ComponentId) -> (added: bool)
        requires
            old(self).wf(),
        ensures
            final(self).wf(),
            final(self)@ == old(self)@.insert(component_id),
            added == !old(self)@.contains(component_id),
            !added ==> final(self).component_ids@ == old(self).component_ids@,
    {
        let mut p: usize = 0;
        while p < self.component_ids.len() && self.component_ids[p].id < component_id.id
            invariant
                p <= self.component_ids.len(),
                *self == *old(self),
                forall|k: int| 0 <= k < p ==> self.component_ids@[k].id < component_id.id,
            decreases self.component_ids.len() - p,
        {
            p += 1;
        }
        let ghost before = self.component_ids@;
        if p < self.component_ids.len() && self.component_ids[p].id == component_id.id {
            assert(before[p as int] == component_id);
            assert(before.contains(component_id));
            assert(self@ =~= old(self)@.insert(component_id));
            return false;
        }
        proof {
            if before.contains(component_id) {
                let k = choose|k: int| 0 <= k < before.len() && before[k] == component_id;
                if k > p {
                    assert(before[p as int].id < before[k].id);
                }
            }
        }
        self.component_ids.insert(p, component_id);
        proof {
            let after = self.component_ids@;
            assert forall|i: int, j: int| 0 <= i < j < after.len() implies after[i].id
                < after[j].id by {
                if i < p && j > p {
                    if j - 1 > i {
                        assert(before[i].id < before[j - 1].id);
                    }
                } else if i < p && j < p {
                    assert(before[i].id < before[j].id);
                } else if i > p {
                    assert(before[i - 1].id < before[j - 1].id);
                } else if i == p {
                    if p < before.len() {
                        assert(j - 1 >= p);
                        if j - 1 > p {
                            assert(before[p as int].id < before[j - 1].id);
                        }
                    }
                }
            }
            assert forall|c: ComponentId|
                after.to_set().contains(c) <==> before.to_set().insert(component_id).contains(
                    c,
                ) by {
                if after.contains(c) {
                    let k = choose|k: int| 0 <= k < after.len() && after[k] == c;
                    if k < p {
                        assert(before[k] == c);
                    } else if k > p {
                        assert(before[k - 1] == c);
                    }
                }
                if before.contains(c) {
                    let k = choose|k: int| 0 <= k < before.len() && before[k] == c;
                    if k < p {
                        assert(after[k] == c);
                    } else {
                        assert(after[k + 1] == c);
                    }
                }
                if c == component_id {
                    assert(after[p as int] == c);
                }
            }
            assert(after.to_set() =~= before.to_set().insert(component_id));
        }
        true
    }

    /// How many components the set holds.
    pub fn components_count(&self) -> (n: usize)
        ensures
            n == self.component_ids@.len(),
            self.wf() ==> n == self@.len(),
    {
        proof {
            if self.wf() {
                assert(self.component_ids@.no_duplicates());
                self.component_ids@.unique_seq_to_set();
            }
        }
        self.component_ids.len()
    }

    /// Where `component_id` stands in the canonical listing, if it is in the set.
    pub fn position(&self, component_id: ComponentId) -> (r: Option<usize>)
        ensures
            r.is_some() <==> self@.contains(component_id),
            r matches Some(p) ==> p < self.component_ids@.len() && self.component_ids@[p as int]
                == component_id,
    {
        let mut i: usize = 0;
        while i < self.component_ids.len()
            invariant
                i <= self.component_ids.len(),
                forall|k: int| 0 <= k < i ==> self.component_ids@[k] != component_id,
            decreases self.component_ids.len() - i,
        {
            if self.component_ids[i].id == component_id.id {
                assert(self.component_ids@.contains(component_id));
                return Some(i);
            }
            i += 1;
        }
        None
    }

    /// Whether the set holds `component_id`.
    pub fn contain(&self, component_id: ComponentId) -> (r: bool)
        ensures
            r == self@.contains(component_id),
    {
        self.position(component_id).is_some()
    }

    /// Whether both keys name the same set.
    pub fn equals(&self, other: &Self) -> (r: bool)
        ensures
            r == (self.component_ids@ == other.component_ids@),
            self.wf() && other.wf() ==> r == (self@ == other@),
    {
        proof {
            if self.wf() && other.wf() && self@ == other@ {
                lemma_canonical_listing_unique(self.component_ids@, other.component_ids@);
            }
        }
        if self.component_ids.len() != other.component_ids.len() {
            return false;
        }
        let mut i: usize = 0;
        while i < self.component_ids.len()
            invariant
                i <= self.component_ids.len(),
                self.component_ids.len() == other.component_ids.len(),
                self.wf() && other.wf() && self@ == other@ ==> self.component_ids@
                    == other.component_ids@,
                forall|k: int| 0 <= k < i ==> self.component_ids@[k] == other.component_ids@[k],
            decreases self.component_ids.len() - i,
        {
            if self.component_ids[i].id != other.component_ids[i].id {
                return false;
            }
            i += 1;
        }
        assert(self.component_ids@ =~= other.component_ids@);
        true
    }

    /// The first component of the set, in canonical order, that has no entry
    /// in the registry; `None` when all are registered.
    pub fn check(&self, registered_components: &Vec<ComponentInfo>) -> (r: Option<ComponentId>)
        ensures
            r.is_none() <==> forall|c: ComponentId| #[trigger]
                self@.contains(c) ==> registered_component(registered_components@, c),
            r matches Some(c) ==> self@.contains(c) && !registered_component(
                registered_components@,
                c,
            ),
            r matches Some(c) ==> exists|i: int|
                0 <= i < self.component_ids@.len() && self.component_ids@[i] == c && forall|k: int|
                    0 <= k < i ==> registered_component(
                        registered_components@,
                        #[trigger] self.component_ids@[k],
                    ),
    {
        let mut i: usize = 0;
        while i < self.component_ids.len()
            invariant
                i <= self.component_ids.len(),
                forall|k: int|
                    0 <= k < i ==> registered_component(
                        registered_components@,
                        #[trigger] self.component_ids@[k],
                    ),
            decreases self.component_ids.len() - i,
        {
            let c = self.component_ids[i];
            let mut j: usize = 0;
            let mut found = false;
            while j < registered_components.len()
                invariant
                    j <= registered_components.len(),
                    !found ==> forall|k: int|
                        0 <= k < j ==> (#[trigger] registered_components@[k]).component_id != c,
                    found ==> registered_component(registered_components@, c),
                decreases registered_components.len() - j,
            {
                if registered_components[j].component_id.id == c.id {
                    assert(registered_components@[j as int].component_id == c);
                    found = true;
                }
                j += 1;
            }
            if !found {
                assert(self.component_ids@.contains(c));
                assert(self@.contains(c));
                assert(!registered_component(registered_components@, c));
                return Some(c);
            }
            i += 1;
        }
        proof {
            assert forall|c: ComponentId| #[trigger] self@.contains(c) implies registered_component(
                registered_components@,
                c,
            ) by {
                let k = choose|k: int| 0 <= k < self.component_ids@.len() && self.component_ids@[k] == c;
                assert(registered_component(registered_components@, self.component_ids@[k]));
            }
        }
        None
    }
}

} // verus!
