//! The scheduler: registered systems, their declared ordering and the
//! progression of one update tick.

pub mod graph;
pub mod query;
pub mod system;
pub mod update;

use vstd::prelude::*;

use crate::behavior::graph::{
    acyclic, contains_id, contains_link, copy_links, leads, lemma_new_links_acyclic,
    lemma_precedes_first_link, lemma_precedes_last_link, lemma_push_contains,
    lemma_same_links_same_order, on_cycle, precedes, reachable_from, same_links, walk, SystemLink,
};
use crate::behavior::system::{SystemInfo, SystemType};
use crate::types::result::BuildSystemError;

verus! {

/// A system with identifier `id` is registered.
pub open spec fn registered_in(systems: Seq<SystemInfo>, id: u64) -> bool {
    exists|i: int| 0 <= i < systems.len() && (#[trigger] systems[i]).system_id == id
}

/// Some transitive predecessor of `id` is not registered.
pub open spec fn lacks_predecessor(links: Seq<SystemLink>, systems: Seq<SystemInfo>, id: u64) -> bool {
    exists|m: u64| !registered_in(systems, m) && #[trigger] precedes(links, m, id)
}

/// The same systems with the same handlers, in the same order; their
/// `disabled` flags may differ.
pub open spec fn same_systems(a: Seq<SystemInfo>, b: Seq<SystemInfo>) -> bool {
    &&& a.len() == b.len()
    &&& forall|i: int|
        0 <= i < a.len() ==> (#[trigger] a[i]).system_id == b[i].system_id && a[i].system
            == b[i].system
}

/// The links of `before` together with those that system `id` declares: one
/// from each of `prevs` to it, and one from it to each of `nexts`.
pub open spec fn candidate_links(
    before: Seq<SystemLink>,
    id: u64,
    prevs: Seq<u64>,
    nexts: Seq<u64>,
) -> Seq<SystemLink> {
    before + Seq::new(prevs.len(), |i: int| SystemLink { prev: prevs[i], next: id }) + Seq::new(
        nexts.len(),
        |i: int| SystemLink { prev: id, next: nexts[i] },
    )
}

/// Which systems are registered depends on the identifiers alone.
pub proof fn lemma_same_systems_registered(a: Seq<SystemInfo>, b: Seq<SystemInfo>)
    requires
        same_systems(a, b),
    ensures
        forall|x: u64| registered_in(a, x) == registered_in(b, x),
        forall|links: Seq<SystemLink>, x: u64|
            lacks_predecessor(links, a, x) == lacks_predecessor(links, b, x),
{
    assert forall|x: u64| registered_in(a, x) == registered_in(b, x) by {
        if registered_in(a, x) {
            let i = choose|i: int| 0 <= i < a.len() && (#[trigger] a[i]).system_id == x;
            assert(b[i].system_id == x);
        }
        if registered_in(b, x) {
            let i = choose|i: int| 0 <= i < b.len() && (#[trigger] b[i]).system_id == x;
            assert(a[i].system_id == x);
        }
    }
    assert forall|links: Seq<SystemLink>, x: u64|
        lacks_predecessor(links, a, x) == lacks_predecessor(links, b, x) by {
        if lacks_predecessor(links, a, x) {
            let m = choose|m: u64| !registered_in(a, m) && #[trigger] precedes(links, m, x);
            assert(!registered_in(b, m) && precedes(links, m, x));
        }
        if lacks_predecessor(links, b, x) {
            let m = choose|m: u64| !registered_in(b, m) && #[trigger] precedes(links, m, x);
            assert(!registered_in(a, m) && precedes(links, m, x));
        }
    }
}

/// A missing predecessor disables every system downstream of it: a system
/// whose direct predecessor is unregistered, or itself lacks a predecessor,
/// lacks one too.
pub proof fn lemma_disabled_propagates(
    links: Seq<SystemLink>,
    systems: Seq<SystemInfo>,
    prev: u64,
    next: u64,
)
    requires
        links.contains(SystemLink { prev, next }),
        !registered_in(systems, prev) || lacks_predecessor(links, systems, prev),
    ensures
        lacks_predecessor(links, systems, next),
{
    if !registered_in(systems, prev) {
        graph::lemma_leads_reflexive(links, prev);
        graph::lemma_leads_step(links, prev, prev, next);
    } else {
        let m = choose|m: u64| !registered_in(systems, m) && #[trigger] precedes(links, m, prev);
        let p = choose|p: Seq<u64>| #[trigger] walk(links, p, m, prev) && p.len() >= 2;
        assert(walk(links, p, m, prev));
        graph::lemma_leads_step(links, m, prev, next);
    }
}

/// In a consistent scheduler a registered system is disabled exactly when
/// some transitive predecessor of it is not registered: every system
/// downstream of an unregistered one is disabled, and a system is enabled
/// again as soon as all its transitive predecessors are registered.
pub proof fn lemma_disabled_downstream(manager: EcsBehaviorManager, missing: u64, i: int)
    requires
        manager.wf(),
        0 <= i < manager.systems_info@.len(),
        !manager.is_registered(missing),
        precedes(manager.links@, missing, manager.systems_info@[i].system_id),
    ensures
        manager.systems_info@[i].disabled,
        !manager.is_enabled(manager.systems_info@[i].system_id),
{
}

/// In a consistent scheduler a registered system all of whose transitive
/// predecessors are registered is enabled.
pub proof fn lemma_enabled_upstream_registered(manager: EcsBehaviorManager, i: int)
    requires
        manager.wf(),
        0 <= i < manager.systems_info@.len(),
        forall|m: u64| #[trigger]
            precedes(manager.links@, m, manager.systems_info@[i].system_id)
                ==> manager.is_registered(m),
    ensures
        !manager.systems_info@[i].disabled,
        manager.is_enabled(manager.systems_info@[i].system_id),
{
}

/// The flag that the reachability pass gives a registered system is exact.
proof fn lemma_flag_exact(
    links: Seq<SystemLink>,
    systems: Seq<SystemInfo>,
    seeds: Seq<u64>,
    reached: Seq<u64>,
    x: u64,
)
    requires
        registered_in(systems, x),
        forall|s: u64| #[trigger] seeds.contains(s) ==> !registered_in(systems, s),
        forall|k: int|
            0 <= k < links.len() && !registered_in(systems, (#[trigger] links[k]).prev)
                ==> seeds.contains(links[k].prev),
        forall|y: u64| #[trigger]
            reached.contains(y) <==> exists|s: u64|
                seeds.contains(s) && #[trigger] leads(links, s, y),
    ensures
        reached.contains(x) == lacks_predecessor(links, systems, x),
{
    if reached.contains(x) {
        let s = choose|s: u64| seeds.contains(s) && #[trigger] leads(links, s, x);
        let p = choose|p: Seq<u64>| #[trigger] walk(links, p, s, x);
        assert(p.len() >= 2);
        assert(walk(links, p, s, x) && p.len() >= 2);
        assert(precedes(links, s, x));
    }
    if lacks_predecessor(links, systems, x) {
        let m = choose|m: u64| !registered_in(systems, m) && #[trigger] precedes(links, m, x);
        lemma_precedes_first_link(links, m, x);
        let l = choose|l: SystemLink|
            #[trigger] links.contains(l) && l.prev == m && leads(links, l.next, x);
        let k = choose|k: int| 0 <= k < links.len() && links[k] == l;
        assert(seeds.contains(links[k].prev));
        let p = choose|p: Seq<u64>| #[trigger] walk(links, p, m, x) && p.len() >= 2;
        assert(walk(links, p, m, x));
        assert(seeds.contains(m) && leads(links, m, x));
    }
}

/// The dependency graph of the registered systems.
///
/// `links` holds every ordering that was ever declared; a declaration
/// outlives the systems it names, so a system whose predecessor is
/// unregistered stays disabled until that predecessor is registered again.
pub struct EcsBehaviorManager {
    pub systems_info: Vec<SystemInfo>,
    pub links: Vec<SystemLink>,
}

impl EcsBehaviorManager {
    /// No two registered systems share an identifier.
    pub open spec fn distinct(&self) -> bool {
        forall|i: int, j: int|
            0 <= i < j < self.systems_info@.len() ==> self.systems_info@[i].system_id
                != self.systems_info@[j].system_id
    }

    /// Each `disabled` flag says exactly whether a transitive predecessor is
    /// missing.
    pub open spec fn flags_exact(&self) -> bool {
        forall|i: int|
            0 <= i < self.systems_info@.len() ==> (#[trigger] self.systems_info@[i]).disabled
                == lacks_predecessor(
                self.links@,
                self.systems_info@,
                self.systems_info@[i].system_id,
            )
    }

    /// The graph is consistent: identifiers are unique, the declared links
    /// hold no cycle and the flags are up to date.
    pub open spec fn wf(&self) -> bool {
        &&& self.distinct()
        &&& self.flags_exact()
        &&& acyclic(self.links@)
    }

    /// `id` is registered.
    pub open spec fn is_registered(&self, id: u64) -> bool {
        registered_in(self.systems_info@, id)
    }

    /// `id` is registered and no transitive predecessor of it is missing.
    pub open spec fn is_enabled(&self, id: u64) -> bool {
        registered_in(self.systems_info@, id) && !lacks_predecessor(
            self.links@,
            self.systems_info@,
            id,
        )
    }

    /// `id` is registered and has no declared predecessor: an entry point of
    /// a tick.
    pub open spec fn is_pure(&self, id: u64) -> bool {
        registered_in(self.systems_info@, id) && forall|l: SystemLink| #[trigger]
            self.links@.contains(l) ==> l.next != id
    }

    /// A scheduler without systems or links.
    pub fn new() -> (r: Self)
        ensures
            r.wf(),
            r.systems_info@.len() == 0,
            r.links@.len() == 0,
    {
        let r = Self { systems_info: Vec::new(), links: Vec::new() };
        proof {
            assert forall|id: u64| !on_cycle(r.links@, id) by {
                if on_cycle(r.links@, id) {
                    let p = choose|p: Seq<u64>| #[trigger] walk(r.links@, p, id, id) && p.len() >= 2;
                    assert(graph::step(r.links@, p, 0));
                }
            }
        }
        r
    }

    /// Where the system `id` stands among the registered ones.
    pub fn find_system(&self, id: u64) -> (r: Option<usize>)
        ensures
            r.is_some() == self.is_registered(id),
            r matches Some(p) ==> p < self.systems_info@.len() && self.systems_info@[p as int].system_id
                == id,
    {
        let mut i: usize = 0;
        while i < self.systems_info.len()
            invariant
                i <= self.systems_info.len(),
                forall|k: int| 0 <= k < i ==> (#[trigger] self.systems_info@[k]).system_id != id,
            decreases self.systems_info.len() - i,
        {
            if self.systems_info[i].system_id == id {
                return Some(i);
            }
            i += 1;
        }
        None
    }

    /// The record of system `id`, if it is registered.
    pub fn get_system(&self, id: u64) -> (r: Option<SystemInfo>)
        ensures
            r.is_some() == self.is_registered(id),
            r matches Some(info) ==> info.system_id == id && self.systems_info@.contains(info),
    {
        match self.find_system(id) {
            Some(p) => Some(self.systems_info[p]),
            None => None,
        }
    }

    /// Recomputes every `disabled` flag from the links and the registry: a
    /// system is disabled exactly when some transitive predecessor of it is
    /// not registered.
    pub fn check_disabled_systems(&mut self)
        ensures
            final(self).links@ == old(self).links@,
            same_systems(final(self).systems_info@, old(self).systems_info@),
            final(self).flags_exact(),
            old(self).distinct() ==> final(self).distinct(),
    {
        let mut seeds: Vec<u64> = Vec::new();
        let mut i: usize = 0;
        while i < self.links.len()
            invariant
                i <= self.links.len(),
                *self == *old(self),
                forall|s: u64| #[trigger]
                    seeds@.contains(s) ==> !registered_in(self.systems_info@, s),
                forall|k: int|
                    0 <= k < i && !registered_in(
                        self.systems_info@,
                        (#[trigger] self.links@[k]).prev,
                    ) ==> seeds@.contains(self.links@[k].prev),
            decreases self.links.len() - i,
        {
            let prev = self.links[i].prev;
            if self.find_system(prev).is_none() {
                proof {
                    lemma_push_contains(seeds@, prev);
                }
                seeds.push(prev);
            }
            i += 1;
        }
        let reached = reachable_from(&self.links, &seeds);
        let mut updated: Vec<SystemInfo> = Vec::new();
        let mut j: usize = 0;
        while j < self.systems_info.len()
            invariant
                j <= self.systems_info.len(),
                *self == *old(self),
                updated@.len() == j,
                forall|s: u64| #[trigger]
                    seeds@.contains(s) ==> !registered_in(self.systems_info@, s),
                forall|k: int|
                    0 <= k < self.links@.len() && !registered_in(
                        self.systems_info@,
                        (#[trigger] self.links@[k]).prev,
                    ) ==> seeds@.contains(self.links@[k].prev),
                forall|y: u64| #[trigger]
                    reached@.contains(y) <==> exists|s: u64|
                        seeds@.contains(s) && #[trigger] leads(self.links@, s, y),
                forall|k: int|
                    0 <= k < j ==> (#[trigger] updated@[k]).system_id
                        == self.systems_info@[k].system_id && updated@[k].system
                        == self.systems_info@[k].system && updated@[k].disabled
                        == lacks_predecessor(
                        self.links@,
                        self.systems_info@,
                        self.systems_info@[k].system_id,
                    ),
            decreases self.systems_info.len() - j,
        {
            let info = self.systems_info[j];
            let disabled = contains_id(&reached, info.system_id);
            proof {
                lemma_flag_exact(
                    self.links@,
                    self.systems_info@,
                    seeds@,
                    reached@,
                    info.system_id,
                );
            }
            updated.push(SystemInfo { system_id: info.system_id, system: info.system, disabled });
            j += 1;
        }
        self.systems_info = updated;
        proof {
            lemma_same_systems_registered(self.systems_info@, old(self).systems_info@);
        }
    }

    /// Unregisters the system `id`. The links that name it stay declared, so
    /// every system downstream of it is disabled until it is registered again.
    pub fn remove_system(&mut self, id: u64)
        requires
            old(self).wf(),
        ensures
            final(self).wf(),
            final(self).links@ == old(self).links@,
            !old(self).is_registered(id) ==> final(self).systems_info@ == old(self).systems_info@,
            old(self).is_registered(id) ==> exists|p: int|
                0 <= p < old(self).systems_info@.len() && (#[trigger] old(
                    self,
                ).systems_info@[p]).system_id == id && same_systems(
                    final(self).systems_info@,
                    old(self).systems_info@.remove(p),
                ),
            forall|x: u64| final(self).is_registered(x) <==> old(self).is_registered(x) && x != id,
    {
        match self.find_system(id) {
            None => {},
            Some(p) => {
                let _ = self.systems_info.remove(p);
                let ghost mid = self.systems_info@;
                assert(mid == old(self).systems_info@.remove(p as int));
                self.check_disabled_systems();
                proof {
                    lemma_same_systems_registered(self.systems_info@, mid);
                    assert forall|x: u64| registered_in(mid, x) <==> old(self).is_registered(x)
                        && x != id by {
                        if registered_in(mid, x) {
                            let i = choose|i: int|
                                0 <= i < mid.len() && (#[trigger] mid[i]).system_id == x;
                            if i < p {
                                assert(old(self).systems_info@[i].system_id == x);
                            } else {
                                assert(old(self).systems_info@[i + 1].system_id == x);
                            }
                        }
                        if old(self).is_registered(x) && x != id {
                            let i = choose|i: int|
                                0 <= i < old(self).systems_info@.len() && (#[trigger] old(
                                    self,
                                ).systems_info@[i]).system_id == x;
                            if i < p {
                                assert(mid[i].system_id == x);
                            } else {
                                assert(mid[i - 1].system_id == x);
                            }
                        }
                    }
                    assert(old(self).systems_info@[p as int].system_id == id);
                }
            },
        }
    }
}


/// What registering system `id` does to a scheduler.
///
/// It fails exactly when the declared links would put the system on a
/// dependency cycle, and then changes nothing. Otherwise the links are those
/// of before and the declared ones, and the system is registered with its
/// handler kind, in its old place if it was registered already and last if not.
pub open spec fn registration(
    before: EcsBehaviorManager,
    after: EcsBehaviorManager,
    id: u64,
    system: SystemType,
    prevs: Seq<u64>,
    nexts: Seq<u64>,
    r: Result<(), BuildSystemError>,
) -> bool {
    let candidate = candidate_links(before.links@, id, prevs, nexts);
    let info = SystemInfo { system_id: id, system, disabled: true };
    &&& r.is_err() <==> on_cycle(candidate, id)
    &&& r matches Err(e) ==> e == (BuildSystemError::CycledSystemLinks { system_id: id })
        && after.links@ == before.links@ && after.systems_info@ == before.systems_info@
    &&& r.is_ok() ==> same_links(after.links@, candidate)
    &&& r.is_ok() && !before.is_registered(id) ==> same_systems(
        after.systems_info@,
        before.systems_info@.push(info),
    )
    &&& r.is_ok() && before.is_registered(id) ==> exists|p: int|
        0 <= p < before.systems_info@.len() && (#[trigger] before.systems_info@[p]).system_id == id
            && same_systems(after.systems_info@, before.systems_info@.update(p, info))
}

/// Adds `l` to `links` unless it is declared already.
pub fn add_link(links: &mut Vec<SystemLink>, l: SystemLink)
    ensures
        forall|x: SystemLink| #[trigger]
            final(links)@.contains(x) <==> old(links)@.contains(x) || x == l,
        old(links)@.contains(l) ==> final(links)@ == old(links)@,
        !old(links)@.contains(l) ==> final(links)@ == old(links)@.push(l),
{
    if !contains_link(links, l.prev, l.next) {
        proof {
            lemma_push_contains(links@, l);
        }
        links.push(l);
    }
}

impl EcsBehaviorManager {
    /// The declared links together with those that system `id` would add.
    pub fn links_with(&self, id: u64, prevs: &Vec<u64>, nexts: &Vec<u64>) -> (r: Vec<SystemLink>)
        ensures
            r@ == candidate_links(self.links@, id, prevs@, nexts@),
    {
        let mut r = copy_links(&self.links);
        let mut i: usize = 0;
        while i < prevs.len()
            invariant
                i <= prevs.len(),
                r@.len() == self.links@.len() + i,
                forall|k: int| 0 <= k < self.links@.len() ==> r@[k] == self.links@[k],
                forall|k: int|
                    0 <= k < i ==> r@[self.links@.len() + k] == (SystemLink {
                        prev: prevs@[k],
                        next: id,
                    }),
            decreases prevs.len() - i,
        {
            r.push(SystemLink { prev: prevs[i], next: id });
            i += 1;
        }
        let mut j: usize = 0;
        while j < nexts.len()
            invariant
                j <= nexts.len(),
                r@.len() == self.links@.len() + prevs@.len() + j,
                forall|k: int| 0 <= k < self.links@.len() ==> r@[k] == self.links@[k],
                forall|k: int|
                    0 <= k < prevs@.len() ==> r@[self.links@.len() + k] == (SystemLink {
                        prev: prevs@[k],
                        next: id,
                    }),
                forall|k: int|
                    0 <= k < j ==> r@[self.links@.len() + prevs@.len() + k] == (SystemLink {
                        prev: id,
                        next: nexts@[k],
                    }),
            decreases nexts.len() - j,
        {
            r.push(SystemLink { prev: id, next: nexts[j] });
            j += 1;
        }
        assert(r@ =~= candidate_links(self.links@, id, prevs@, nexts@));
        r
    }

    /// Whether system `id` may declare `prev_systems` as its predecessors and
    /// `next_systems` as its successors: `false` exactly when the links would
    /// put it on a dependency cycle. Nothing is committed.
    pub fn check_links(&self, id: u64, prev_systems: &Vec<u64>, next_systems: &Vec<u64>) -> (ok:
        bool)
        ensures
            ok == !on_cycle(candidate_links(self.links@, id, prev_systems@, next_systems@), id),
    {
        let candidate = self.links_with(id, prev_systems, next_systems);
        let mut seeds: Vec<u64> = Vec::new();
        seeds.push(id);
        let reached = reachable_from(&candidate, &seeds);
        proof {
            assert(seeds@ =~= seq![id]);
            assert(seeds@[0] == id);
            lemma_precedes_last_link(candidate@, id, id);
        }
        let mut k: usize = 0;
        while k < candidate.len()
            invariant
                k <= candidate.len(),
                seeds@ == seq![id],
                candidate@ == candidate_links(self.links@, id, prev_systems@, next_systems@),
                forall|y: u64| #[trigger]
                    reached@.contains(y) <==> exists|s: u64|
                        seeds@.contains(s) && #[trigger] leads(candidate@, s, y),
                forall|m: int|
                    0 <= m < k ==> !((#[trigger] candidate@[m]).next == id && reached@.contains(
                        candidate@[m].prev,
                    )),
                on_cycle(candidate@, id) <==> exists|l: SystemLink|
                    #[trigger] candidate@.contains(l) && l.next == id && leads(
                        candidate@,
                        id,
                        l.prev,
                    ),
            decreases candidate.len() - k,
        {
            let l = candidate[k];
            if l.next == id && contains_id(&reached, l.prev) {
                proof {
                    let s = choose|s: u64|
                        seeds@.contains(s) && #[trigger] leads(candidate@, s, l.prev);
                    assert(s == id);
                    assert(candidate@.contains(l) && l.next == id && leads(candidate@, id, l.prev));
                }
                return false;
            }
            k += 1;
        }
        proof {
            if on_cycle(candidate@, id) {
                let l = choose|l: SystemLink|
                    #[trigger] candidate@.contains(l) && l.next == id && leads(
                        candidate@,
                        id,
                        l.prev,
                    );
                let m = choose|m: int| 0 <= m < candidate@.len() && candidate@[m] == l;
                assert(seeds@.contains(id) && leads(candidate@, id, l.prev));
                assert(reached@.contains(candidate@[m].prev));
            }
        }
        true
    }

    /// Registers system `id` with its handler kind and its declared
    /// predecessors and successors.
    ///
    /// Fails, leaving the scheduler as it was, exactly when the declared links
    /// would put the system on a dependency cycle. Otherwise the links are
    /// committed, the system is added (or its handler kind replaced, if it was
    /// registered already) and every `disabled` flag is recomputed.
    pub fn register_system(
        &mut self,
        id: u64,
        system: SystemType,
        prev_systems: &Vec<u64>,
        next_systems: &Vec<u64>,
    ) -> (r: Result<(), BuildSystemError>)
        requires
            old(self).wf(),
        ensures
            final(self).wf(),
            registration(*old(self), *final(self), id, system, prev_systems@, next_systems@, r),
    {
        if !self.check_links(id, prev_systems, next_systems) {
            return Err(BuildSystemError::CycledSystemLinks { system_id: id });
        }
        let candidate = self.links_with(id, prev_systems, next_systems);
        let ghost before = self.links@;
        let first: usize = self.links.len();
        let mut k: usize = first;
        proof {
            assert forall|x: SystemLink| #[trigger] before.contains(x) implies candidate@.contains(
                x,
            ) by {
                let m = choose|m: int| 0 <= m < before.len() && before[m] == x;
                assert(candidate@[m] == x);
            }
            assert forall|m: int| 0 <= m < first implies before.contains(
                #[trigger] candidate@[m],
            ) by {
                assert(before[m] == candidate@[m]);
            }
        }
        while k < candidate.len()
            invariant
                first <= k <= candidate.len(),
                first == before.len(),
                candidate@ == candidate_links(before, id, prev_systems@, next_systems@),
                self.systems_info@ == old(self).systems_info@,
                forall|x: SystemLink| #[trigger] self.links@.contains(x) ==> candidate@.contains(x),
                forall|m: int| 0 <= m < k ==> self.links@.contains(#[trigger] candidate@[m]),
            decreases candidate.len() - k,
        {
            let ghost prior = self.links@;
            add_link(&mut self.links, candidate[k]);
            proof {
                assert forall|m: int| 0 <= m < k + 1 implies self.links@.contains(
                    #[trigger] candidate@[m],
                ) by {
                    if m < k {
                        assert(prior.contains(candidate@[m]));
                    }
                }
            }
            k += 1;
        }
        proof {
            assert(same_links(self.links@, candidate@)) by {
                assert forall|x: SystemLink| #[trigger]
                    self.links@.contains(x) <==> candidate@.contains(x) by {
                    if candidate@.contains(x) {
                        let m = choose|m: int| 0 <= m < candidate@.len() && candidate@[m] == x;
                        assert(self.links@.contains(candidate@[m]));
                    }
                }
            }
            assert forall|l: SystemLink| #[trigger] candidate@.contains(l) implies before.contains(
                l,
            ) || l.prev == id || l.next == id by {
                let m = choose|m: int| 0 <= m < candidate@.len() && candidate@[m] == l;
                if m < before.len() {
                    assert(before[m] == l);
                }
            }
            lemma_new_links_acyclic(before, candidate@, id);
            assert forall|a: u64| !on_cycle(self.links@, a) by {
                lemma_same_links_same_order(self.links@, candidate@, a, a);
                assert(!on_cycle(candidate@, a));
            }
        }
        let ghost systems_before = self.systems_info@;
        match self.find_system(id) {
            Some(p) => {
                self.systems_info.set(p, SystemInfo { system_id: id, system, disabled: true });
            },
            None => {
                self.systems_info.push(SystemInfo { system_id: id, system, disabled: true });
            },
        }
        proof {
            assert forall|i: int, j: int| 0 <= i < j < self.systems_info@.len() implies self.systems_info@[i].system_id
                != self.systems_info@[j].system_id by {
                if j < systems_before.len() {
                    assert(systems_before[i].system_id != systems_before[j].system_id);
                } else {
                    assert(systems_before[i].system_id != id);
                }
            }
        }
        self.check_disabled_systems();
        Ok(())
    }

    /// Whether some link names `id` as its target.
    pub fn has_predecessor(&self, id: u64) -> (r: bool)
        ensures
            r == exists|l: SystemLink| #[trigger] self.links@.contains(l) && l.next == id,
    {
        let mut i: usize = 0;
        while i < self.links.len()
            invariant
                i <= self.links.len(),
                forall|k: int| 0 <= k < i ==> (#[trigger] self.links@[k]).next != id,
            decreases self.links.len() - i,
        {
            if self.links[i].next == id {
                assert(self.links@.contains(self.links@[i as int]));
                return true;
            }
            i += 1;
        }
        proof {
            if exists|l: SystemLink| #[trigger] self.links@.contains(l) && l.next == id {
                let l = choose|l: SystemLink| #[trigger] self.links@.contains(l) && l.next == id;
                let k = choose|k: int| 0 <= k < self.links@.len() && self.links@[k] == l;
                assert(self.links@[k].next != id);
            }
        }
        false
    }

    /// The entry points of a tick: the registered systems without a declared
    /// predecessor, each once.
    pub fn pure_systems(&self) -> (r: Vec<SystemInfo>)
        requires
            self.distinct(),
        ensures
            forall|x: SystemInfo| #[trigger]
                r@.contains(x) <==> self.systems_info@.contains(x) && self.is_pure(x.system_id),
            forall|i: int, j: int| 0 <= i < j < r@.len() ==> r@[i].system_id != r@[j].system_id,
    {
        let mut r: Vec<SystemInfo> = Vec::new();
        let mut i: usize = 0;
        while i < self.systems_info.len()
            invariant
                i <= self.systems_info.len(),
                self.distinct(),
                forall|x: SystemInfo| #[trigger]
                    r@.contains(x) <==> self.systems_info@.subrange(0, i as int).contains(x)
                        && self.is_pure(x.system_id),
                forall|a: int, b: int| 0 <= a < b < r@.len() ==> r@[a].system_id != r@[b].system_id,
            decreases self.systems_info.len() - i,
        {
            let info = self.systems_info[i];
            let ghost seen = self.systems_info@.subrange(0, i as int);
            let ghost next = self.systems_info@.subrange(0, i + 1);
            proof {
                assert(next =~= seen.push(info));
                lemma_push_contains(seen, info);
                lemma_push_contains(r@, info);
                assert(registered_in(self.systems_info@, info.system_id));
            }
            if !self.has_predecessor(info.system_id) {
                proof {
                    assert forall|a: int| 0 <= a < r@.len() implies r@[a].system_id
                        != info.system_id by {
                        assert(r@.contains(r@[a]));
                        assert(seen.contains(r@[a]));
                        let m = choose|m: int| 0 <= m < seen.len() && seen[m] == r@[a];
                        assert(self.systems_info@[m].system_id != self.systems_info@[i as int].system_id);
                    }
                }
                r.push(info);
            }
            i += 1;
        }
        assert(self.systems_info@.subrange(0, self.systems_info@.len() as int)
            =~= self.systems_info@);
        r
    }
}


/// Collects what a system declares before it is registered: the systems whose
/// results it needs and the systems that need its result.
pub struct SystemBuilder {
    pub prev_systems: Vec<u64>,
    pub next_systems: Vec<u64>,
}

/// `after` is `before` with `id` added, unless it was there already.
pub open spec fn with_id(before: Seq<u64>, after: Seq<u64>, id: u64) -> bool {
    after == if before.contains(id) {
        before
    } else {
        before.push(id)
    }
}

impl SystemBuilder {
    /// A builder that declares nothing yet.
    pub fn new() -> (r: Self)
        ensures
            r.prev_systems@.len() == 0,
            r.next_systems@.len() == 0,
    {
        Self { prev_systems: Vec::new(), next_systems: Vec::new() }
    }

    /// Declares that the system runs after `prev_system`.
    pub fn need_system_result(&mut self, prev_system: u64) -> (r: &mut Self)
        ensures
            with_id(old(self).prev_systems@, r.prev_systems@, prev_system),
            r.next_systems@ == old(self).next_systems@,
            *final(self) == *final(r),
    {
        if !contains_id(&self.prev_systems, prev_system) {
            self.prev_systems.push(prev_system);
        }
        self
    }

    /// Declares that `next_system` runs after the system.
    pub fn result_for_system(&mut self, next_system: u64) -> (r: &mut Self)
        ensures
            with_id(old(self).next_systems@, r.next_systems@, next_system),
            r.prev_systems@ == old(self).prev_systems@,
            *final(self) == *final(r),
    {
        if !contains_id(&self.next_systems, next_system) {
            self.next_systems.push(next_system);
        }
        self
    }

    /// Registers `system_id` with `manager` as a system that runs inline, with
    /// the links declared so far.
    pub fn build_with_sync_handler(self, manager: &mut EcsBehaviorManager, system_id: u64) -> (r:
        Result<(), BuildSystemError>)
        requires
            old(manager).wf(),
        ensures
            final(manager).wf(),
            registration(
                *old(manager),
                *final(manager),
                system_id,
                SystemType::BlockingSystem,
                self.prev_systems@,
                self.next_systems@,
                r,
            ),
    {
        manager.register_system(
            system_id,
            SystemType::BlockingSystem,
            &self.prev_systems,
            &self.next_systems,
        )
    }

    /// Registers `system_id` with `manager` as a system that runs
    /// concurrently, with the links declared so far.
    pub fn build_with_muitithread_handler(
        self,
        manager: &mut EcsBehaviorManager,
        system_id: u64,
    ) -> (r: Result<(), BuildSystemError>)
        requires
            old(manager).wf(),
        ensures
            final(manager).wf(),
            registration(
                *old(manager),
                *final(manager),
                system_id,
                SystemType::MultithreadSystem,
                self.prev_systems@,
                self.next_systems@,
                r,
            ),
    {
        manager.register_system(
            system_id,
            SystemType::MultithreadSystem,
            &self.prev_systems,
            &self.next_systems,
        )
    }
}

impl EcsBehaviorManager {
    /// A builder for the next system to register.
    pub fn get_system_builder(&self) -> (r: Option<SystemBuilder>)
        ensures
            r matches Some(b) && b.prev_systems@.len() == 0 && b.next_systems@.len() == 0,
    {
        Some(SystemBuilder::new())
    }
}

} // verus!
