use vstd::prelude::*;

verus! {

/// A declared ordering between two systems: `next` runs only after `prev` has
/// completed.
#[derive(Debug, Copy, Clone, PartialEq, Eq, Hash, Structural)]
pub struct SystemLink {
    pub prev: u64,
    pub next: u64,
}

/// The link from `p[i]` to `p[i + 1]` is declared.
pub open spec fn step(links: Seq<SystemLink>, p: Seq<u64>, i: int) -> bool {
    links.contains(SystemLink { prev: p[i], next: p[i + 1] })
}

/// `p` walks along declared links, from each system to one of its successors.
pub open spec fn is_path(links: Seq<SystemLink>, p: Seq<u64>) -> bool {
    forall|i: int| 0 <= i < p.len() - 1 ==> #[trigger] step(links, p, i)
}

/// `p` is a walk from `a` to `b`; a single system is a walk to itself.
pub open spec fn walk(links: Seq<SystemLink>, p: Seq<u64>, a: u64, b: u64) -> bool {
    is_path(links, p) && p.len() >= 1 && p[0] == a && p.last() == b
}

/// `b` is `a` itself or one of its transitive successors.
pub open spec fn leads(links: Seq<SystemLink>, a: u64, b: u64) -> bool {
    exists|p: Seq<u64>| #[trigger] walk(links, p, a, b)
}

/// `b` is a transitive successor of `a`: a walk of at least one link joins them.
pub open spec fn precedes(links: Seq<SystemLink>, a: u64, b: u64) -> bool {
    exists|p: Seq<u64>| #[trigger] walk(links, p, a, b) && p.len() >= 2
}

/// `id` lies on a dependency cycle.
pub open spec fn on_cycle(links: Seq<SystemLink>, id: u64) -> bool {
    precedes(links, id, id)
}

/// No system transitively precedes itself.
pub open spec fn acyclic(links: Seq<SystemLink>) -> bool {
    forall|id: u64| !on_cycle(links, id)
}

/// Every system leads to itself.
pub proof fn lemma_leads_reflexive(links: Seq<SystemLink>, a: u64)
    ensures
        leads(links, a, a),
{
    let p = seq![a];
    assert(walk(links, p, a, a));
}

/// A walk can be extended by one declared link.
pub proof fn lemma_leads_step(links: Seq<SystemLink>, s: u64, a: u64, b: u64)
    requires
        leads(links, s, a),
        links.contains(SystemLink { prev: a, next: b }),
    ensures
        leads(links, s, b),
        precedes(links, s, b),
{
    let p = choose|p: Seq<u64>| #[trigger] walk(links, p, s, a);
    let q = p.push(b);
    assert forall|i: int| 0 <= i < q.len() - 1 implies #[trigger] step(links, q, i) by {
        if i < p.len() - 1 {
            assert(step(links, p, i));
        }
    }
    assert(walk(links, q, s, b));
}

/// A set that holds the start of a walk and is closed under declared links
/// holds every system on the walk.
pub proof fn lemma_closed_holds_walk(
    links: Seq<SystemLink>,
    reached: Seq<u64>,
    p: Seq<u64>,
    i: int,
)
    requires
        is_path(links, p),
        0 <= i < p.len(),
        reached.contains(p[0]),
        forall|l: SystemLink| #[trigger]
            links.contains(l) && reached.contains(l.prev) ==> reached.contains(l.next),
    ensures
        reached.contains(p[i]),
    decreases i,
{
    if i > 0 {
        lemma_closed_holds_walk(links, reached, p, i - 1);
        assert(step(links, p, i - 1));
    }
}

/// Two listings declare the same links.
pub open spec fn same_links(a: Seq<SystemLink>, b: Seq<SystemLink>) -> bool {
    forall|l: SystemLink| #[trigger] a.contains(l) <==> b.contains(l)
}

/// A walk stays a walk when links are added.
pub proof fn lemma_walk_more_links(a: Seq<SystemLink>, b: Seq<SystemLink>, p: Seq<u64>)
    requires
        is_path(a, p),
        forall|l: SystemLink| #[trigger] a.contains(l) ==> b.contains(l),
    ensures
        is_path(b, p),
{
    assert forall|i: int| 0 <= i < p.len() - 1 implies #[trigger] step(b, p, i) by {
        assert(step(a, p, i));
    }
}

/// What leads where depends only on which links are declared.
pub proof fn lemma_same_links_same_order(a: Seq<SystemLink>, b: Seq<SystemLink>, x: u64, y: u64)
    requires
        same_links(a, b),
    ensures
        leads(a, x, y) == leads(b, x, y),
        precedes(a, x, y) == precedes(b, x, y),
{
    if leads(a, x, y) {
        let p = choose|p: Seq<u64>| #[trigger] walk(a, p, x, y);
        lemma_walk_more_links(a, b, p);
        assert(walk(b, p, x, y));
    }
    if leads(b, x, y) {
        let p = choose|p: Seq<u64>| #[trigger] walk(b, p, x, y);
        lemma_walk_more_links(b, a, p);
        assert(walk(a, p, x, y));
    }
    if precedes(a, x, y) {
        let p = choose|p: Seq<u64>| #[trigger] walk(a, p, x, y) && p.len() >= 2;
        lemma_walk_more_links(a, b, p);
        assert(walk(b, p, x, y) && p.len() >= 2);
    }
    if precedes(b, x, y) {
        let p = choose|p: Seq<u64>| #[trigger] walk(b, p, x, y) && p.len() >= 2;
        lemma_walk_more_links(b, a, p);
        assert(walk(a, p, x, y) && p.len() >= 2);
    }
}

/// A system transitively precedes another exactly when it leads to one of the
/// other's direct predecessors.
pub proof fn lemma_precedes_last_link(links: Seq<SystemLink>, a: u64, b: u64)
    ensures
        precedes(links, a, b) <==> exists|l: SystemLink|
            #[trigger] links.contains(l) && l.next == b && leads(links, a, l.prev),
{
    if precedes(links, a, b) {
        let p = choose|p: Seq<u64>| #[trigger] walk(links, p, a, b) && p.len() >= 2;
        let q = p.drop_last();
        assert forall|i: int| 0 <= i < q.len() - 1 implies #[trigger] step(links, q, i) by {
            assert(step(links, p, i));
        }
        assert(walk(links, q, a, q.last()));
        assert(step(links, p, p.len() - 2));
        let l = SystemLink { prev: q.last(), next: b };
        assert(links.contains(l) && l.next == b && leads(links, a, l.prev));
    }
    if exists|l: SystemLink| #[trigger] links.contains(l) && l.next == b && leads(links, a, l.prev) {
        let l = choose|l: SystemLink|
            #[trigger] links.contains(l) && l.next == b && leads(links, a, l.prev);
        lemma_leads_step(links, a, l.prev, l.next);
    }
}

/// A walk of at least one link starts with a declared link and goes on from
/// that link's target.
pub proof fn lemma_precedes_first_link(links: Seq<SystemLink>, a: u64, b: u64)
    requires
        precedes(links, a, b),
    ensures
        exists|l: SystemLink| #[trigger] links.contains(l) && l.prev == a && leads(links, l.next, b),
{
    let p = choose|p: Seq<u64>| #[trigger] walk(links, p, a, b) && p.len() >= 2;
    let q = p.subrange(1, p.len() as int);
    assert forall|i: int| 0 <= i < q.len() - 1 implies #[trigger] step(links, q, i) by {
        assert(step(links, p, i + 1));
    }
    assert(walk(links, q, p[1], b));
    assert(step(links, p, 0));
    let l = SystemLink { prev: a, next: p[1] };
    assert(links.contains(l) && l.prev == a && leads(links, l.next, b));
}

/// Adding links that all touch one system, none of which puts that system on
/// a cycle, keeps an acyclic graph acyclic.
pub proof fn lemma_new_links_acyclic(before: Seq<SystemLink>, after: Seq<SystemLink>, id: u64)
    requires
        acyclic(before),
        forall|l: SystemLink| #[trigger]
            after.contains(l) ==> before.contains(l) || l.prev == id || l.next == id,
        !on_cycle(after, id),
    ensures
        acyclic(after),
{
    assert forall|a: u64| !on_cycle(after, a) by {
        if on_cycle(after, a) {
            let p = choose|p: Seq<u64>| #[trigger] walk(after, p, a, a) && p.len() >= 2;
            if exists|k: int| 0 <= k < p.len() && p[k] == id {
                let k = choose|k: int| 0 <= k < p.len() && p[k] == id;
                if k == 0 || k == p.len() - 1 {
                    assert(walk(after, p, id, id) && p.len() >= 2);
                } else {
                    let q = p.subrange(k, p.len() as int) + p.subrange(1, k + 1);
                    assert forall|i: int| 0 <= i < q.len() - 1 implies #[trigger] step(
                        after,
                        q,
                        i,
                    ) by {
                        if i < p.len() - k - 1 {
                            assert(step(after, p, k + i));
                        } else if i == p.len() - k - 1 {
                            assert(step(after, p, 0));
                        } else {
                            assert(step(after, p, 1 + i - (p.len() - k)));
                        }
                    }
                    assert(walk(after, q, id, id) && q.len() >= 2);
                }
            } else {
                assert forall|i: int| 0 <= i < p.len() - 1 implies #[trigger] step(
                    before,
                    p,
                    i,
                ) by {
                    assert(step(after, p, i));
                }
                assert(walk(before, p, a, a) && p.len() >= 2);
                assert(on_cycle(before, a));
            }
        }
    }
}

/// Whether `x` occurs in `ids`.
pub fn contains_id(ids: &Vec<u64>, x: u64) -> (r: bool)
    ensures
        r == ids@.contains(x),
{
    let mut i: usize = 0;
    while i < ids.len()
        invariant
            i <= ids.len(),
            forall|k: int| 0 <= k < i ==> ids@[k] != x,
        decreases ids.len() - i,
    {
        if ids[i] == x {
            return true;
        }
        i += 1;
    }
    false
}

/// Whether the link from `prev` to `next` is declared.
pub fn contains_link(links: &Vec<SystemLink>, prev: u64, next: u64) -> (r: bool)
    ensures
        r == links@.contains(SystemLink { prev, next }),
{
    let mut i: usize = 0;
    while i < links.len()
        invariant
            i <= links.len(),
            forall|k: int| 0 <= k < i ==> links@[k] != (SystemLink { prev, next }),
        decreases links.len() - i,
    {
        if links[i].prev == prev && links[i].next == next {
            return true;
        }
        i += 1;
    }
    false
}

/// Everything in `small` occurs in `big`.
#[verifier::opaque]
spec fn within<T>(big: Seq<T>, small: Seq<T>) -> bool {
    forall|x: T| #[trigger] small.contains(x) ==> big.contains(x)
}

/// Every reached system is a seed or a transitive successor of one.
#[verifier::opaque]
spec fn sound(links: Seq<SystemLink>, seeds: Seq<u64>, reached: Seq<u64>) -> bool {
    forall|x: u64| #[trigger]
        reached.contains(x) ==> exists|s: u64| seeds.contains(s) && #[trigger] leads(links, s, x)
}

/// Every link is still to be looked at, in `keep` or in `tail`, or its target
/// is reached already.
#[verifier::opaque]
spec fn pending(
    links: Seq<SystemLink>,
    keep: Seq<SystemLink>,
    tail: Seq<SystemLink>,
    reached: Seq<u64>,
) -> bool {
    forall|l: SystemLink| #[trigger]
        links.contains(l) ==> keep.contains(l) || tail.contains(l) || reached.contains(l.next)
}

/// No link in `keep` starts at a reached system.
#[verifier::opaque]
spec fn quiet(keep: Seq<SystemLink>, reached: Seq<u64>) -> bool {
    forall|l: SystemLink| #[trigger] keep.contains(l) ==> !reached.contains(l.prev)
}

pub proof fn lemma_push_contains<T>(s: Seq<T>, v: T)
    ensures
        forall|x: T| #[trigger] s.push(v).contains(x) <==> s.contains(x) || x == v,
        forall|x: T| #[trigger] s.contains(x) ==> s.push(v).contains(x),
        s.push(v).contains(v),
{
    assert forall|x: T| #[trigger] s.push(v).contains(x) <==> s.contains(x) || x == v by {
        if s.push(v).contains(x) {
            let m = choose|m: int| 0 <= m < s.push(v).len() && s.push(v)[m] == x;
            if m < s.len() {
                assert(s[m] == x);
            }
        }
        if s.contains(x) {
            let m = choose|m: int| 0 <= m < s.len() && s[m] == x;
            assert(s.push(v)[m] == x);
        }
        if x == v {
            assert(s.push(v)[s.len() as int] == x);
        }
    }
}

proof fn lemma_within_self<T>(s: Seq<T>)
    ensures
        within(s, s),
        within(s, Seq::<T>::empty()),
{
    reveal(within);
}

proof fn lemma_within_grow<T>(big: Seq<T>, small: Seq<T>, v: T)
    requires
        within(big, small),
    ensures
        within(big.push(v), small),
{
    reveal(within);
    lemma_push_contains(big, v);
}

proof fn lemma_within_push<T>(big: Seq<T>, small: Seq<T>, v: T)
    requires
        within(big, small),
        big.contains(v),
    ensures
        within(big, small.push(v)),
{
    reveal(within);
    lemma_push_contains(small, v);
}

proof fn lemma_sound_seeds(links: Seq<SystemLink>, seeds: Seq<u64>)
    ensures
        sound(links, seeds, seeds),
{
    reveal(sound);
    assert forall|x: u64| seeds.contains(x) implies exists|s: u64|
        seeds.contains(s) && #[trigger] leads(links, s, x) by {
        lemma_leads_reflexive(links, x);
    }
}

proof fn lemma_sound_push(links: Seq<SystemLink>, seeds: Seq<u64>, reached: Seq<u64>, l: SystemLink)
    requires
        sound(links, seeds, reached),
        links.contains(l),
        reached.contains(l.prev),
    ensures
        sound(links, seeds, reached.push(l.next)),
{
    reveal(sound);
    lemma_push_contains(reached, l.next);
    let s = choose|s: u64| seeds.contains(s) && #[trigger] leads(links, s, l.prev);
    lemma_leads_step(links, s, l.prev, l.next);
}

proof fn lemma_pending_start(links: Seq<SystemLink>, rest: Seq<SystemLink>, reached: Seq<u64>)
    requires
        pending(links, rest, Seq::<SystemLink>::empty(), reached),
    ensures
        pending(links, Seq::<SystemLink>::empty(), rest.subrange(0, rest.len() as int), reached),
{
    reveal(pending);
    assert(rest.subrange(0, rest.len() as int) =~= rest);
}

proof fn lemma_pending_end(
    links: Seq<SystemLink>,
    keep: Seq<SystemLink>,
    rest: Seq<SystemLink>,
    reached: Seq<u64>,
)
    requires
        pending(links, keep, rest.subrange(rest.len() as int, rest.len() as int), reached),
    ensures
        pending(links, keep, Seq::<SystemLink>::empty(), reached),
{
    reveal(pending);
    assert(rest.subrange(rest.len() as int, rest.len() as int) =~= Seq::<SystemLink>::empty());
}

proof fn lemma_tail_contains(rest: Seq<SystemLink>, k: int, l: SystemLink)
    requires
        0 <= k < rest.len(),
        rest.subrange(k, rest.len() as int).contains(l),
    ensures
        l == rest[k] || rest.subrange(k + 1, rest.len() as int).contains(l),
{
    let t = rest.subrange(k, rest.len() as int);
    let m = choose|m: int| 0 <= m < t.len() && t[m] == l;
    if m > 0 {
        assert(rest.subrange(k + 1, rest.len() as int)[m - 1] == l);
    }
}

proof fn lemma_pending_fire(
    links: Seq<SystemLink>,
    keep: Seq<SystemLink>,
    rest: Seq<SystemLink>,
    k: int,
    reached: Seq<u64>,
    grown: Seq<u64>,
)
    requires
        0 <= k < rest.len(),
        pending(links, keep, rest.subrange(k, rest.len() as int), reached),
        grown == reached || grown == reached.push(rest[k].next),
        grown.contains(rest[k].next),
    ensures
        pending(links, keep, rest.subrange(k + 1, rest.len() as int), grown),
{
    reveal(pending);
    lemma_push_contains(reached, rest[k].next);
    assert forall|l: SystemLink| links.contains(l) implies keep.contains(l) || rest.subrange(
        k + 1,
        rest.len() as int,
    ).contains(l) || grown.contains(l.next) by {
        if rest.subrange(k, rest.len() as int).contains(l) {
            lemma_tail_contains(rest, k, l);
        }
    }
}

proof fn lemma_pending_keep(
    links: Seq<SystemLink>,
    keep: Seq<SystemLink>,
    rest: Seq<SystemLink>,
    k: int,
    reached: Seq<u64>,
)
    requires
        0 <= k < rest.len(),
        pending(links, keep, rest.subrange(k, rest.len() as int), reached),
    ensures
        pending(links, keep.push(rest[k]), rest.subrange(k + 1, rest.len() as int), reached),
{
    reveal(pending);
    lemma_push_contains(keep, rest[k]);
    assert forall|l: SystemLink| links.contains(l) implies keep.push(rest[k]).contains(l)
        || rest.subrange(k + 1, rest.len() as int).contains(l) || reached.contains(l.next) by {
        if rest.subrange(k, rest.len() as int).contains(l) {
            lemma_tail_contains(rest, k, l);
        }
    }
}

proof fn lemma_quiet_push(keep: Seq<SystemLink>, reached: Seq<u64>, l: SystemLink)
    requires
        quiet(keep, reached),
        !reached.contains(l.prev),
    ensures
        quiet(keep.push(l), reached),
{
    reveal(quiet);
    lemma_push_contains(keep, l);
}

proof fn lemma_quiet_empty(reached: Seq<u64>)
    ensures
        quiet(Seq::<SystemLink>::empty(), reached),
{
    reveal(quiet);
}

proof fn lemma_closure_exact(
    links: Seq<SystemLink>,
    seeds: Seq<u64>,
    reached: Seq<u64>,
    rest: Seq<SystemLink>,
)
    requires
        sound(links, seeds, reached),
        within(reached, seeds),
        pending(links, rest, Seq::<SystemLink>::empty(), reached),
        quiet(rest, reached),
    ensures
        forall|x: u64| #[trigger]
            reached.contains(x) <==> exists|s: u64|
                seeds.contains(s) && #[trigger] leads(links, s, x),
{
    reveal(sound);
    reveal(within);
    reveal(pending);
    reveal(quiet);
    assert forall|l: SystemLink| #[trigger]
        links.contains(l) && reached.contains(l.prev) implies reached.contains(l.next) by {}
    assert forall|x: u64| #[trigger]
        reached.contains(x) <==> exists|s: u64|
            seeds.contains(s) && #[trigger] leads(links, s, x) by {
        if exists|s: u64| seeds.contains(s) && #[trigger] leads(links, s, x) {
            let s = choose|s: u64| seeds.contains(s) && #[trigger] leads(links, s, x);
            let p = choose|p: Seq<u64>| #[trigger] walk(links, p, s, x);
            lemma_closed_holds_walk(links, reached, p, p.len() - 1);
        }
    }
}

/// A copy of `ids`.
pub fn copy_ids(ids: &Vec<u64>) -> (r: Vec<u64>)
    ensures
        r@ == ids@,
{
    let mut r: Vec<u64> = Vec::new();
    let mut i: usize = 0;
    while i < ids.len()
        invariant
            i <= ids.len(),
            r@ == ids@.subrange(0, i as int),
        decreases ids.len() - i,
    {
        r.push(ids[i]);
        assert(r@ =~= ids@.subrange(0, i + 1));
        i += 1;
    }
    assert(r@ =~= ids@);
    r
}

/// A copy of `links`.
pub fn copy_links(links: &Vec<SystemLink>) -> (r: Vec<SystemLink>)
    ensures
        r@ == links@,
{
    let mut r: Vec<SystemLink> = Vec::new();
    let mut i: usize = 0;
    while i < links.len()
        invariant
            i <= links.len(),
            r@ == links@.subrange(0, i as int),
        decreases links.len() - i,
    {
        r.push(links[i]);
        assert(r@ =~= links@.subrange(0, i + 1));
        i += 1;
    }
    assert(r@ =~= links@);
    r
}

/// The systems that the seeds lead to: the seeds themselves and all their
/// transitive successors.
pub fn reachable_from(links: &Vec<SystemLink>, seeds: &Vec<u64>) -> (reached: Vec<u64>)
    ensures
        forall|x: u64| #[trigger]
            reached@.contains(x) <==> exists|s: u64|
                seeds@.contains(s) && #[trigger] leads(links@, s, x),
{
    let mut reached = copy_ids(seeds);
    let mut rest = copy_links(links);
    proof {
        lemma_sound_seeds(links@, seeds@);
        lemma_within_self(seeds@);
        lemma_within_self(links@);
        reveal(pending);
    }
    let mut progress = true;
    while progress
        invariant
            sound(links@, seeds@, reached@),
            within(reached@, seeds@),
            within(links@, rest@),
            pending(links@, rest@, Seq::<SystemLink>::empty(), reached@),
            !progress ==> quiet(rest@, reached@),
        decreases rest.len() + (if progress { 1int } else { 0int }),
    {
        let mut keep: Vec<SystemLink> = Vec::new();
        let mut fired = false;
        let mut k: usize = 0;
        proof {
            lemma_pending_start(links@, rest@, reached@);
            lemma_quiet_empty(reached@);
            lemma_within_self(links@);
        }
        while k < rest.len()
            invariant
                k <= rest.len(),
                sound(links@, seeds@, reached@),
                within(reached@, seeds@),
                within(links@, rest@),
                within(links@, keep@),
                pending(links@, keep@, rest@.subrange(k as int, rest.len() as int), reached@),
                keep.len() <= k,
                fired ==> keep.len() < k,
                !fired ==> quiet(keep@, reached@),
            decreases rest.len() - k,
        {
            let l = rest[k];
            proof {
                assert(rest@.contains(l));
                assert(links@.contains(l)) by {
                    reveal(within);
                }
            }
            if contains_id(&reached, l.prev) {
                let ghost before = reached@;
                if !contains_id(&reached, l.next) {
                    reached.push(l.next);
                    proof {
                        lemma_sound_push(links@, seeds@, before, l);
                        lemma_within_grow(before, seeds@, l.next);
                        lemma_push_contains(before, l.next);
                    }
                }
                proof {
                    lemma_pending_fire(links@, keep@, rest@, k as int, before, reached@);
                }
                fired = true;
            } else {
                proof {
                    lemma_pending_keep(links@, keep@, rest@, k as int, reached@);
                    if !fired {
                        lemma_quiet_push(keep@, reached@, l);
                    }
                    lemma_within_push(links@, keep@, l);
                }
                keep.push(l);
            }
            k += 1;
        }
        proof {
            lemma_pending_end(links@, keep@, rest@, reached@);
        }
        rest = keep;
        progress = fired;
    }
    proof {
        lemma_closure_exact(links@, seeds@, reached@, rest@);
    }
    reached
}

} // verus!
