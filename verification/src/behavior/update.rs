use vstd::prelude::*;

use crate::behavior::graph::{
    contains_id, is_path, lemma_leads_reflexive, lemma_leads_step, lemma_push_contains, on_cycle,
    precedes, step, walk, SystemLink,
};
use crate::behavior::system::SystemInfo;
use crate::behavior::{lacks_predecessor, registered_in, EcsBehaviorManager};

verus! {

/// Every declared predecessor of `id` is among `finished`.
pub open spec fn predecessors_done(links: Seq<SystemLink>, finished: Seq<u64>, id: u64) -> bool {
    forall|l: SystemLink| #[trigger] links.contains(l) && l.next == id ==> finished.contains(l.prev)
}

/// `ready` lists, in order, the systems that `started` gained after its first
/// `from` entries, each as the scheduler records it.
pub open spec fn dispatched(
    systems: Seq<SystemInfo>,
    started: Seq<u64>,
    from: int,
    ready: Seq<SystemInfo>,
) -> bool {
    &&& started.len() == from + ready.len()
    &&& forall|i: int|
        0 <= i < ready.len() ==> systems.contains(#[trigger] ready[i]) && started[from + i]
            == ready[i].system_id
}

/// The progress of one tick: which systems have been dispatched and which of
/// them have reported completion.
pub struct UpdateState {
    pub started: Vec<u64>,
    pub finished: Vec<u64>,
}

impl UpdateState {
    /// The state belongs to a tick of `manager`: no system was dispatched
    /// twice, only dispatched systems have finished, and the dispatched
    /// systems are exactly the enabled ones all of whose declared
    /// predecessors have finished.
    pub open spec fn wf(&self, manager: &EcsBehaviorManager) -> bool {
        &&& self.started@.no_duplicates()
        &&& self.finished@.no_duplicates()
        &&& forall|x: u64| #[trigger] self.finished@.contains(x) ==> self.started@.contains(x)
        &&& forall|x: u64| #[trigger]
            self.started@.contains(x) <==> manager.is_enabled(x) && predecessors_done(
                manager.links@,
                self.finished@,
                x,
            )
    }

    /// Whether every dispatched system has reported completion, which ends
    /// the tick.
    pub fn is_finished(&self) -> (r: bool)
        ensures
            r == (self.started@.len() == self.finished@.len()),
            self.started@.no_duplicates() && self.finished@.no_duplicates() && (forall|x: u64| #[trigger]
                self.finished@.contains(x) ==> self.started@.contains(x)) ==> (r <==> forall|
                x: u64,
            | #[trigger]
                self.started@.contains(x) ==> self.finished@.contains(x)),
    {
        proof {
            if self.started@.no_duplicates() && self.finished@.no_duplicates() && (forall|x: u64| #[trigger]
                self.finished@.contains(x) ==> self.started@.contains(x)) {
                let s = self.started@.to_set();
                let f = self.finished@.to_set();
                self.started@.unique_seq_to_set();
                self.finished@.unique_seq_to_set();
                assert(f.subset_of(s));
                if self.started@.len() == self.finished@.len() {
                    vstd::set_lib::lemma_subset_equality(f, s);
                    assert forall|x: u64| #[trigger] self.started@.contains(x) implies self.finished@.contains(x) by {
                        assert(s.contains(x));
                        assert(f.contains(x));
                    }
                }
                if forall|x: u64| #[trigger] self.started@.contains(x) ==> self.finished@.contains(x) {
                    assert(s =~= f);
                }
            }
        }
        self.started.len() == self.finished.len()
    }
}

impl EcsBehaviorManager {
    /// Whether every declared predecessor of `id` is among `finished`.
    pub fn predecessors_finished(&self, finished: &Vec<u64>, id: u64) -> (r: bool)
        ensures
            r == predecessors_done(self.links@, finished@, id),
    {
        let mut i: usize = 0;
        while i < self.links.len()
            invariant
                i <= self.links.len(),
                forall|k: int|
                    0 <= k < i && (#[trigger] self.links@[k]).next == id ==> finished@.contains(
                        self.links@[k].prev,
                    ),
            decreases self.links.len() - i,
        {
            let l = self.links[i];
            if l.next == id && !contains_id(finished, l.prev) {
                assert(self.links@.contains(l));
                return false;
            }
            i += 1;
        }
        proof {
            assert forall|l: SystemLink| #[trigger] self.links@.contains(l) && l.next
                == id implies finished@.contains(l.prev) by {
                let k = choose|k: int| 0 <= k < self.links@.len() && self.links@[k] == l;
                assert(self.links@[k].next == id);
            }
        }
        true
    }

    /// Opens a tick: returns its state and the systems to dispatch first,
    /// which are the enabled systems without a declared predecessor, each
    /// once. With no such system the tick is finished at once.
    pub fn start_update(&self) -> (r: (UpdateState, Vec<SystemInfo>))
        requires
            self.wf(),
        ensures
            r.0.wf(self),
            r.0.finished@.len() == 0,
            dispatched(self.systems_info@, r.0.started@, 0, r.1@),
    {
        let mut state = UpdateState { started: Vec::new(), finished: Vec::new() };
        let mut ready: Vec<SystemInfo> = Vec::new();
        let mut i: usize = 0;
        while i < self.systems_info.len()
            invariant
                i <= self.systems_info.len(),
                self.wf(),
                state.finished@.len() == 0,
                dispatched(self.systems_info@, state.started@, 0, ready@),
                forall|x: u64| #[trigger]
                    state.started@.contains(x) ==> self.is_enabled(x) && predecessors_done(
                        self.links@,
                        state.finished@,
                        x,
                    ),
                forall|x: u64| #[trigger]
                    state.started@.contains(x) ==> exists|k: int|
                        0 <= k < i && (#[trigger] self.systems_info@[k]).system_id == x,
                forall|k: int|
                    0 <= k < i && self.is_enabled((#[trigger] self.systems_info@[k]).system_id)
                        && predecessors_done(
                        self.links@,
                        state.finished@,
                        self.systems_info@[k].system_id,
                    ) ==> state.started@.contains(self.systems_info@[k].system_id),
                state.started@.no_duplicates(),
            decreases self.systems_info.len() - i,
        {
            let info = self.systems_info[i];
            let ghost before = state.started@;
            proof {
                assert(registered_in(self.systems_info@, info.system_id));
                assert(self.systems_info@[i as int].disabled == lacks_predecessor(
                    self.links@,
                    self.systems_info@,
                    info.system_id,
                ));
                assert(self.systems_info@.contains(info));
                lemma_push_contains(before, info.system_id);
            }
            if !info.disabled && self.predecessors_finished(&state.finished, info.system_id) {
                proof {
                    if before.contains(info.system_id) {
                        let k = choose|k: int|
                            0 <= k < i && (#[trigger] self.systems_info@[k]).system_id
                                == info.system_id;
                        assert(self.systems_info@[k].system_id != self.systems_info@[i as int].system_id);
                    }
                }
                state.started.push(info.system_id);
                ready.push(info);
            }
            i += 1;
        }
        proof {
            assert forall|x: u64| self.is_enabled(x) && predecessors_done(
                self.links@,
                state.finished@,
                x,
            ) implies #[trigger] state.started@.contains(x) by {
                let k = choose|k: int|
                    0 <= k < self.systems_info@.len() && (#[trigger] self.systems_info@[k]).system_id
                        == x;
                assert(self.systems_info@[k].system_id == x);
            }
        }
        (state, ready)
    }

    /// Records that the dispatched system `id` has completed, and returns the
    /// systems to dispatch next: the enabled successors of `id` all of whose
    /// declared predecessors have now finished, each once.
    pub fn system_finished(&self, state: &mut UpdateState, id: u64) -> (ready: Vec<SystemInfo>)
        requires
            self.wf(),
            old(state).wf(self),
            old(state).started@.contains(id),
            !old(state).finished@.contains(id),
        ensures
            final(state).wf(self),
            final(state).finished@ == old(state).finished@.push(id),
            final(state).started@.subrange(0, old(state).started@.len() as int) == old(
                state,
            ).started@,
            dispatched(
                self.systems_info@,
                final(state).started@,
                old(state).started@.len() as int,
                ready@,
            ),
    {
        let ghost finished_before = state.finished@;
        let ghost started_before = state.started@;
        proof {
            lemma_push_contains(finished_before, id);
        }
        state.finished.push(id);
        let mut ready: Vec<SystemInfo> = Vec::new();
        let mut i: usize = 0;
        assert(state.started@.subrange(0, started_before.len() as int) =~= started_before);
        while i < self.links.len()
            invariant
                i <= self.links.len(),
                self.wf(),
                state.finished@ == finished_before.push(id),
                state.started@.len() >= started_before.len(),
                state.started@.subrange(0, started_before.len() as int) == started_before,
                dispatched(
                    self.systems_info@,
                    state.started@,
                    started_before.len() as int,
                    ready@,
                ),
                state.started@.no_duplicates(),
                forall|x: u64| #[trigger]
                    started_before.contains(x) ==> state.started@.contains(x),
                forall|x: u64| #[trigger]
                    state.started@.contains(x) ==> self.is_enabled(x) && predecessors_done(
                        self.links@,
                        state.finished@,
                        x,
                    ),
                forall|k: int|
                    0 <= k < i && (#[trigger] self.links@[k]).prev == id && self.is_enabled(
                        self.links@[k].next,
                    ) && predecessors_done(self.links@, state.finished@, self.links@[k].next)
                        ==> state.started@.contains(self.links@[k].next),
            decreases self.links.len() - i,
        {
            let l = self.links[i];
            if l.prev == id && !contains_id(&state.started, l.next) {
                match self.get_system(l.next) {
                    Some(info) => {
                        proof {
                            let k = choose|k: int|
                                0 <= k < self.systems_info@.len() && self.systems_info@[k] == info;
                            assert(self.systems_info@[k].disabled == lacks_predecessor(
                                self.links@,
                                self.systems_info@,
                                info.system_id,
                            ));
                        }
                        if !info.disabled && self.predecessors_finished(&state.finished, l.next) {
                            let ghost prior = state.started@;
                            proof {
                                lemma_push_contains(prior, l.next);
                            }
                            state.started.push(l.next);
                            ready.push(info);
                            proof {
                                assert(state.started@.subrange(0, started_before.len() as int)
                                    =~= prior.subrange(0, started_before.len() as int));
                            }
                        }
                    },
                    None => {},
                }
            }
            i += 1;
        }
        proof {
            assert forall|x: u64| self.is_enabled(x) && predecessors_done(
                self.links@,
                state.finished@,
                x,
            ) implies #[trigger] state.started@.contains(x) by {
                if predecessors_done(self.links@, finished_before, x) {
                    assert(started_before.contains(x));
                } else {
                    let l = choose|l: SystemLink|
                        #[trigger] self.links@.contains(l) && l.next == x
                            && !finished_before.contains(l.prev);
                    assert(state.finished@.contains(l.prev));
                    assert(l.prev == id);
                    let k = choose|k: int| 0 <= k < self.links@.len() && self.links@[k] == l;
                    assert(self.links@[k].prev == id);
                }
            }
            assert forall|x: u64| #[trigger] state.finished@.contains(x) implies state.started@.contains(
                x,
            ) by {
                if x != id {
                    assert(finished_before.contains(x));
                    assert(started_before.contains(x));
                }
            }
        }
        ready
    }
}


/// The system `x` is enabled and was not dispatched.
pub open spec fn left_out(manager: EcsBehaviorManager, state: UpdateState, x: u64) -> bool {
    manager.is_enabled(x) && !state.started@.contains(x)
}

/// `w` is a walk to `x` along which every system was left out.
pub open spec fn left_out_walk(
    manager: EcsBehaviorManager,
    state: UpdateState,
    w: Seq<u64>,
    x: u64,
) -> bool {
    &&& is_path(manager.links@, w)
    &&& w.len() >= 1
    &&& w.last() == x
    &&& forall|i: int| 0 <= i < w.len() ==> left_out(manager, state, #[trigger] w[i])
}

/// Once every dispatched system has finished, a system that was left out has
/// a direct predecessor that was left out too.
proof fn lemma_left_out_predecessor(manager: EcsBehaviorManager, state: UpdateState, x: u64)
    requires
        manager.wf(),
        state.wf(&manager),
        forall|y: u64| #[trigger] state.started@.contains(y) ==> state.finished@.contains(y),
        left_out(manager, state, x),
    ensures
        exists|l: SystemLink|
            #[trigger] manager.links@.contains(l) && l.next == x && left_out(manager, state, l.prev),
{
    let links = manager.links@;
    let systems = manager.systems_info@;
    assert(!predecessors_done(links, state.finished@, x));
    let l = choose|l: SystemLink|
        #[trigger] links.contains(l) && l.next == x && !state.finished@.contains(l.prev);
    let p = l.prev;
    lemma_leads_reflexive(links, p);
    lemma_leads_step(links, p, p, x);
    assert(precedes(links, p, x));
    if !crate::behavior::registered_in(systems, p) {
        assert(crate::behavior::lacks_predecessor(links, systems, x));
    }
    if crate::behavior::lacks_predecessor(links, systems, p) {
        crate::behavior::lemma_disabled_propagates(links, systems, p, x);
    }
    assert(links.contains(l) && l.next == x && left_out(manager, state, l.prev));
}

/// Once every dispatched system has finished, a system that was left out ends
/// walks of every length along which all systems were left out.
proof fn lemma_left_out_walks(manager: EcsBehaviorManager, state: UpdateState, x: u64, n: nat)
    requires
        manager.wf(),
        state.wf(&manager),
        forall|y: u64| #[trigger] state.started@.contains(y) ==> state.finished@.contains(y),
        left_out(manager, state, x),
    ensures
        exists|w: Seq<u64>| #[trigger] left_out_walk(manager, state, w, x) && w.len() == n + 1,
    decreases n,
{
    if n == 0 {
        let w = seq![x];
        assert(left_out_walk(manager, state, w, x) && w.len() == 1);
    } else {
        lemma_left_out_walks(manager, state, x, (n - 1) as nat);
        let w = choose|w: Seq<u64>| #[trigger] left_out_walk(manager, state, w, x) && w.len() == n;
        lemma_left_out_predecessor(manager, state, w[0]);
        let l = choose|l: SystemLink|
            #[trigger] manager.links@.contains(l) && l.next == w[0] && left_out(
                manager,
                state,
                l.prev,
            );
        let v = seq![l.prev] + w;
        assert forall|i: int| 0 <= i < v.len() - 1 implies #[trigger] step(manager.links@, v, i) by {
            if i > 0 {
                assert(step(manager.links@, w, i - 1));
            }
        }
        assert forall|i: int| 0 <= i < v.len() implies left_out(manager, state, #[trigger] v[i]) by {
            if i > 0 {
                assert(v[i] == w[i - 1]);
            }
        }
        assert(left_out_walk(manager, state, v, x) && v.len() == n + 1);
    }
}

/// A tick leaves no enabled system out: once every dispatched system has
/// finished, every enabled system has been dispatched.
pub proof fn lemma_tick_complete(manager: EcsBehaviorManager, state: UpdateState, x: u64)
    requires
        manager.wf(),
        state.wf(&manager),
        forall|y: u64| #[trigger] state.started@.contains(y) ==> state.finished@.contains(y),
        manager.is_enabled(x),
    ensures
        state.started@.contains(x),
{
    if !state.started@.contains(x) {
        let links = manager.links@;
        let systems = manager.systems_info@;
        let n = systems.len();
        lemma_left_out_walks(manager, state, x, n);
        let w = choose|w: Seq<u64>| #[trigger] left_out_walk(manager, state, w, x) && w.len() == n + 1;
        // no system occurs twice on the walk, for the links hold no cycle
        assert forall|i: int, j: int| 0 <= i < j < w.len() implies w[i] != w[j] by {
            if w[i] == w[j] {
                let c = w.subrange(i, j + 1);
                assert forall|k: int| 0 <= k < c.len() - 1 implies #[trigger] step(links, c, k) by {
                    assert(step(links, w, i + k));
                }
                assert(walk(links, c, w[i], w[i]) && c.len() >= 2);
                assert(on_cycle(links, w[i]));
            }
        }
        assert(w.no_duplicates());
        // but every system on it is registered, and there are fewer of those
        let ids = Seq::new(n, |k: int| systems[k].system_id);
        assert forall|id: u64| w.to_set().contains(id) implies ids.to_set().contains(id) by {
            let i = choose|i: int| 0 <= i < w.len() && w[i] == id;
            assert(left_out(manager, state, w[i]));
            let k = choose|k: int| 0 <= k < systems.len() && (#[trigger] systems[k]).system_id == id;
            assert(ids[k] == id);
        }
        assert(w.to_set().subset_of(ids.to_set()));
        w.unique_seq_to_set();
        ids.lemma_cardinality_of_set();
        vstd::seq_lib::seq_to_set_is_finite(ids);
        vstd::set_lib::lemma_len_subset(w.to_set(), ids.to_set());
    }
}

} // verus!
