use vstd::prelude::*;

use crate::types::component_id::ComponentId;
use crate::types::entity_id::EntityId;

verus! {

/// `(c, p)` names a stored record: position `p` of chunk `c`.
pub open spec fn valid<R>(grid: Seq<Seq<(EntityId, R)>>, c: int, p: int) -> bool {
    0 <= c < grid.len() && 0 <= p < grid[c].len()
}

/// The record at position `p` of chunk `c`.
pub open spec fn cell<R>(grid: Seq<Seq<(EntityId, R)>>, c: int, p: int) -> (EntityId, R) {
    grid[c][p]
}

/// Some chunk holds a record of entity `e`.
pub open spec fn holds<R>(grid: Seq<Seq<(EntityId, R)>>, e: EntityId) -> bool {
    exists|c: int, p: int| valid(grid, c, p) && (#[trigger] cell(grid, c, p)).0 == e
}

/// No entity has two records.
pub open spec fn distinct<R>(grid: Seq<Seq<(EntityId, R)>>) -> bool {
    forall|c: int, p: int, d: int, q: int|
        valid(grid, c, p) && valid(grid, d, q) && (c != d || p != q) ==> (#[trigger] cell(
            grid,
            c,
            p,
        )).0 != (#[trigger] cell(grid, d, q)).0
}

/// A place where the record of `e` stands.
pub open spec fn place<R>(grid: Seq<Seq<(EntityId, R)>>, e: EntityId) -> (int, int) {
    choose|l: (int, int)| valid(grid, l.0, l.1) && (#[trigger] cell(grid, l.0, l.1)).0 == e
}

/// The chunks read as a map from entity to what is stored for it.
pub open spec fn contents<R>(grid: Seq<Seq<(EntityId, R)>>) -> Map<EntityId, R> {
    Map::new(
        |e: EntityId| holds(grid, e),
        |e: EntityId| cell(grid, place(grid, e).0, place(grid, e).1).1,
    )
}

/// The chunks after the record `r` is appended: to the last chunk if it holds
/// fewer than `capacity` records, else as the only record of a new chunk at
/// the end. Every older record stays where it stands.
pub open spec fn appended<R>(
    grid: Seq<Seq<(EntityId, R)>>,
    capacity: int,
    r: (EntityId, R),
) -> Seq<Seq<(EntityId, R)>> {
    if grid.len() == 0 || grid.last().len() >= capacity {
        grid.push(seq![r])
    } else {
        grid.update(grid.len() - 1, grid.last().push(r))
    }
}

/// A chunk after the record at position `p` is taken out: its last record
/// stands at `p`, and it is one shorter.
pub open spec fn swap_removed<R>(chunk: Seq<(EntityId, R)>, p: int) -> Seq<(EntityId, R)> {
    chunk.update(p, chunk.last()).drop_last()
}

/// The chunks after the record at position `p` of chunk `c` is taken out and
/// the storage is made dense again: the last record of chunk `c` moves to
/// `p`; if `c` is not the last chunk, the last record of the last chunk is
/// then appended to chunk `c`; and a last chunk left empty is dropped.
pub open spec fn compacted<R>(grid: Seq<Seq<(EntityId, R)>>, c: int, p: int) -> Seq<
    Seq<(EntityId, R)>,
> {
    let taken = grid.update(c, swap_removed(grid[c], p));
    let last = grid.len() - 1;
    let filled = if c == last {
        taken
    } else {
        taken.update(last, taken[last].drop_last()).update(c, taken[c].push(taken[last].last()))
    };
    if filled.last().len() == 0 {
        filled.drop_last()
    } else {
        filled
    }
}

/// With one record per entity, the place of a stored record's entity is the
/// place of that record.
pub proof fn lemma_place_unique<R>(grid: Seq<Seq<(EntityId, R)>>, c: int, p: int)
    requires
        distinct(grid),
        valid(grid, c, p),
    ensures
        place(grid, cell(grid, c, p).0) == (c, p),
{
    let e = cell(grid, c, p).0;
    let l = (c, p);
    assert(valid(grid, l.0, l.1) && cell(grid, l.0, l.1).0 == e);
    let k = place(grid, e);
    assert(valid(grid, k.0, k.1) && cell(grid, k.0, k.1).0 == e);
    if k.0 != c || k.1 != p {
        assert(cell(grid, k.0, k.1).0 != cell(grid, c, p).0);
    }
}

/// With one record per entity, the map gives for each stored record's entity
/// what that record holds.
pub proof fn lemma_contents_at<R>(grid: Seq<Seq<(EntityId, R)>>, c: int, p: int)
    requires
        distinct(grid),
        valid(grid, c, p),
    ensures
        contents(grid).dom().contains(cell(grid, c, p).0),
        contents(grid)[cell(grid, c, p).0] == cell(grid, c, p).1,
{
    let e = cell(grid, c, p).0;
    assert(holds(grid, e));
    let l = (c, p);
    assert(valid(grid, l.0, l.1) && cell(grid, l.0, l.1).0 == e);
    let k = place(grid, e);
    assert(valid(grid, k.0, k.1) && cell(grid, k.0, k.1).0 == e);
}

/// Appending a record of a new entity to a chunk adds that entity to the map
/// and changes nothing else.
pub proof fn lemma_push_record<R>(grid: Seq<Seq<(EntityId, R)>>, c: int, r: (EntityId, R))
    requires
        distinct(grid),
        0 <= c < grid.len(),
        !holds(grid, r.0),
    ensures
        distinct(grid.update(c, grid[c].push(r))),
        contents(grid.update(c, grid[c].push(r))) == contents(grid).insert(r.0, r.1),
{
    let after = grid.update(c, grid[c].push(r));
    let n = grid[c].len() as int;
    assert forall|a: int, p: int| valid(after, a, p) implies ((a == c && p == n && cell(after, a, p)
        == r) || (valid(grid, a, p) && #[trigger] cell(after, a, p) == cell(grid, a, p))) by {}
    assert forall|a: int, p: int, d: int, q: int|
        valid(after, a, p) && valid(after, d, q) && (a != d || p != q) implies (#[trigger] cell(
        after,
        a,
        p,
    )).0 != (#[trigger] cell(after, d, q)).0 by {
        if valid(grid, a, p) && valid(grid, d, q) {
            assert(cell(grid, a, p).0 != cell(grid, d, q).0);
        } else if valid(grid, a, p) {
            assert(cell(grid, a, p).0 != r.0);
        } else {
            assert(cell(grid, d, q).0 != r.0);
        }
    }
    assert(valid(after, c, n) && cell(after, c, n) == r);
    assert forall|e: EntityId| holds(after, e) <==> holds(grid, e) || e == r.0 by {
        if holds(after, e) {
            let (a, p) = choose|a: int, p: int|
                valid(after, a, p) && (#[trigger] cell(after, a, p)).0 == e;
            if valid(grid, a, p) {
                assert(cell(grid, a, p).0 == e);
            }
        }
        if holds(grid, e) {
            let (a, p) = choose|a: int, p: int|
                valid(grid, a, p) && (#[trigger] cell(grid, a, p)).0 == e;
            assert(valid(after, a, p) && cell(after, a, p).0 == e);
        }
    }
    assert forall|e: EntityId| holds(after, e) implies contents(after)[e] == contents(grid).insert(
        r.0,
        r.1,
    )[e] by {
        let (a, p) = choose|a: int, p: int|
            valid(after, a, p) && (#[trigger] cell(after, a, p)).0 == e;
        lemma_contents_at(after, a, p);
        if valid(grid, a, p) {
            assert(cell(grid, a, p).0 == e);
            lemma_contents_at(grid, a, p);
        }
    }
    assert(contents(after) =~= contents(grid).insert(r.0, r.1));
}

/// Swap-removing a record from a chunk takes its entity out of the map and
/// changes nothing else.
pub proof fn lemma_swap_remove_record<R>(grid: Seq<Seq<(EntityId, R)>>, c: int, p: int)
    requires
        distinct(grid),
        valid(grid, c, p),
    ensures
        distinct(grid.update(c, grid[c].update(p, grid[c].last()).drop_last())),
        contents(grid.update(c, grid[c].update(p, grid[c].last()).drop_last())) == contents(
            grid,
        ).remove(cell(grid, c, p).0),
        !holds(
            grid.update(c, grid[c].update(p, grid[c].last()).drop_last()),
            cell(grid, c, p).0,
        ),
{
    let after = grid.update(c, grid[c].update(p, grid[c].last()).drop_last());
    let n = grid[c].len() as int;
    let gone = cell(grid, c, p).0;
    // where each record of `after` stood in `grid`
    let src = |a: int, q: int| if a == c && q == p { n - 1 } else { q };
    assert forall|a: int, q: int| valid(after, a, q) implies valid(grid, a, src(a, q)) && (
    #[trigger] cell(after, a, q)) == cell(grid, a, src(a, q)) && !(a == c && src(a, q) == p) by {}
    assert forall|a: int, q: int, d: int, s: int|
        valid(after, a, q) && valid(after, d, s) && (a != d || q != s) implies (#[trigger] cell(
        after,
        a,
        q,
    )).0 != (#[trigger] cell(after, d, s)).0 by {
        assert(cell(grid, a, src(a, q)).0 != cell(grid, d, src(d, s)).0);
    }
    assert forall|e: EntityId| holds(after, e) <==> holds(grid, e) && e != gone by {
        if holds(after, e) {
            let (a, q) = choose|a: int, q: int|
                valid(after, a, q) && (#[trigger] cell(after, a, q)).0 == e;
            assert(valid(grid, a, src(a, q)) && cell(grid, a, src(a, q)).0 == e);
            assert(cell(grid, a, src(a, q)).0 != cell(grid, c, p).0);
        }
        if holds(grid, e) && e != gone {
            let (a, q) = choose|a: int, q: int|
                valid(grid, a, q) && (#[trigger] cell(grid, a, q)).0 == e;
            if a == c && q == n - 1 {
                assert(valid(after, c, p) && cell(after, c, p).0 == e);
            } else {
                assert(valid(after, a, q) && cell(after, a, q).0 == e);
            }
        }
    }
    assert forall|e: EntityId| holds(after, e) implies contents(after)[e] == contents(grid)[e] by {
        let (a, q) = choose|a: int, q: int|
            valid(after, a, q) && (#[trigger] cell(after, a, q)).0 == e;
        lemma_contents_at(after, a, q);
        lemma_contents_at(grid, a, src(a, q));
    }
    assert(contents(after) =~= contents(grid).remove(gone));
}

/// An empty chunk at the end holds nothing: with or without it the same
/// entities are held, and the map is the same.
pub proof fn lemma_empty_tail<R>(grid: Seq<Seq<(EntityId, R)>>)
    requires
        grid.len() > 0,
        grid.last().len() == 0,
    ensures
        distinct(grid) == distinct(grid.drop_last()),
        distinct(grid) ==> contents(grid.drop_last()) == contents(grid),
        forall|e: EntityId| holds(grid.drop_last(), e) == holds(grid, e),
{
    let less = grid.drop_last();
    assert forall|a: int, q: int| valid(grid, a, q) == valid(less, a, q) by {}
    assert forall|a: int, q: int| valid(grid, a, q) implies #[trigger] cell(grid, a, q) == cell(
        less,
        a,
        q,
    ) by {}
    assert forall|e: EntityId| holds(less, e) == holds(grid, e) by {
        if holds(less, e) {
            let (a, q) = choose|a: int, q: int|
                valid(less, a, q) && (#[trigger] cell(less, a, q)).0 == e;
            assert(valid(grid, a, q) && cell(grid, a, q).0 == e);
        }
        if holds(grid, e) {
            let (a, q) = choose|a: int, q: int|
                valid(grid, a, q) && (#[trigger] cell(grid, a, q)).0 == e;
            assert(valid(less, a, q) && cell(less, a, q).0 == e);
        }
    }
    if distinct(less) {
        assert forall|a: int, q: int, d: int, s: int|
            valid(grid, a, q) && valid(grid, d, s) && (a != d || q != s) implies (#[trigger] cell(
            grid,
            a,
            q,
        )).0 != (#[trigger] cell(grid, d, s)).0 by {
            assert(cell(less, a, q).0 != cell(less, d, s).0);
        }
    }
    if distinct(grid) {
        assert forall|a: int, q: int, d: int, s: int|
            valid(less, a, q) && valid(less, d, s) && (a != d || q != s) implies (#[trigger] cell(
            less,
            a,
            q,
        )).0 != (#[trigger] cell(less, d, s)).0 by {
            assert(cell(grid, a, q).0 != cell(grid, d, s).0);
        }
        assert forall|e: EntityId| holds(grid, e) implies contents(less)[e] == contents(grid)[e] by {
            let (a, q) = choose|a: int, q: int|
                valid(grid, a, q) && (#[trigger] cell(grid, a, q)).0 == e;
            lemma_contents_at(grid, a, q);
            lemma_contents_at(less, a, q);
        }
        assert(contents(less) =~= contents(grid));
    }
}

} // verus!
