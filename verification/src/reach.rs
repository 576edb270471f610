//! Walks and reachability over a relation between nodes.

use vstd::prelude::*;

verus! {

/// A relation between nodes: which node has an edge to which.
pub type Rel = spec_fn(int, int) -> bool;

/// A walk is a sequence of at least one node in which each node has an edge to
/// the next. A walk of `k` nodes uses `k - 1` edges.
pub open spec fn is_walk(rel: Rel, p: Seq<int>) -> bool {
    &&& p.len() >= 1
    &&& forall|i: int| 0 <= i < p.len() - 1 ==> rel(#[trigger] p[i], p[i + 1])
}

/// A walk from `a` to `b`.
pub open spec fn walk_between(rel: Rel, p: Seq<int>, a: int, b: int) -> bool {
    is_walk(rel, p) && p.first() == a && p.last() == b
}

/// `b` can be reached from `a` over any number of edges, none included.
pub open spec fn reaches(rel: Rel, a: int, b: int) -> bool {
    exists|p: Seq<int>| walk_between(rel, p, a, b)
}

/// `b` can be reached from `a` over two edges or more.
pub open spec fn has_detour(rel: Rel, a: int, b: int) -> bool {
    exists|p: Seq<int>| walk_between(rel, p, a, b) && p.len() >= 3
}

/// `a` lies on a cycle: it can be reached from itself over one edge or more.
pub open spec fn on_cycle(rel: Rel, a: int) -> bool {
    exists|p: Seq<int>| walk_between(rel, p, a, a) && p.len() >= 2
}

/// No node lies on a cycle.
pub open spec fn acyclic(rel: Rel) -> bool {
    forall|a: int| !on_cycle(rel, a)
}

/// A ranking of the nodes that every edge climbs.
pub open spec fn climbs(rel: Rel, rank: spec_fn(int) -> int) -> bool {
    forall|a: int, b: int| #[trigger] rel(a, b) ==> rank(a) < rank(b)
}

/// The relation that is left when every edge with a detour is dropped.
pub open spec fn reduced(rel: Rel) -> Rel {
    |a: int, b: int| rel(a, b) && !has_detour(rel, a, b)
}

/// Two walks that meet end to start make one walk.
pub proof fn lemma_join(rel: Rel, p: Seq<int>, q: Seq<int>)
    requires
        is_walk(rel, p),
        is_walk(rel, q),
        p.last() == q.first(),
    ensures
        is_walk(rel, p + q.drop_first()),
        (p + q.drop_first()).first() == p.first(),
        (p + q.drop_first()).last() == q.last(),
        (p + q.drop_first()).len() == p.len() + q.len() - 1,
{
    let r = p + q.drop_first();
    assert forall|i: int| 0 <= i < r.len() - 1 implies rel(#[trigger] r[i], r[i + 1]) by {
        if i < p.len() - 1 {
            assert(rel(p[i], p[i + 1]));
        } else if i == p.len() - 1 {
            assert(rel(q[0], q[1]));
        } else {
            let j = i - p.len() + 1;
            assert(rel(q[j], q[j + 1]));
        }
    }
}

/// Reachability is transitive.
pub proof fn lemma_reaches_trans(rel: Rel, a: int, b: int, c: int)
    requires
        reaches(rel, a, b),
        reaches(rel, b, c),
    ensures
        reaches(rel, a, c),
{
    let p = choose|p: Seq<int>| walk_between(rel, p, a, b);
    let q = choose|q: Seq<int>| walk_between(rel, q, b, c);
    lemma_join(rel, p, q);
    assert(walk_between(rel, p + q.drop_first(), a, c));
}

/// An edge is a walk.
pub proof fn lemma_edge_reaches(rel: Rel, a: int, b: int)
    requires
        rel(a, b),
    ensures
        reaches(rel, a, b),
{
    let p = seq![a, b];
    assert(walk_between(rel, p, a, b));
}

/// Every node reaches itself.
pub proof fn lemma_reaches_self(rel: Rel, a: int)
    ensures
        reaches(rel, a, a),
{
    let p = seq![a];
    assert(walk_between(rel, p, a, a));
}

/// Along a walk the rank grows by at least the number of edges walked.
pub proof fn lemma_walk_climbs(rel: Rel, rank: spec_fn(int) -> int, p: Seq<int>)
    requires
        climbs(rel, rank),
        is_walk(rel, p),
    ensures
        rank(p.first()) + p.len() - 1 <= rank(p.last()),
    decreases p.len(),
{
    if p.len() > 1 {
        let q = p.drop_first();
        assert forall|i: int| 0 <= i < q.len() - 1 implies rel(#[trigger] q[i], q[i + 1]) by {
            assert(rel(p[i + 1], p[i + 2]));
        }
        lemma_walk_climbs(rel, rank, q);
        assert(rel(p[0], p[1]));
    }
}

/// A relation with a ranking that every edge climbs has no cycle.
pub proof fn lemma_ranked_is_acyclic(rel: Rel, rank: spec_fn(int) -> int)
    requires
        climbs(rel, rank),
    ensures
        acyclic(rel),
{
    assert forall|a: int| !on_cycle(rel, a) by {
        if on_cycle(rel, a) {
            let p = choose|p: Seq<int>| walk_between(rel, p, a, a) && p.len() >= 2;
            lemma_walk_climbs(rel, rank, p);
        }
    }
}

/// A walk over a smaller relation is a walk over the larger one.
pub proof fn lemma_walk_mono(small: Rel, large: Rel, p: Seq<int>)
    requires
        is_walk(small, p),
        forall|a: int, b: int| #[trigger] small(a, b) ==> large(a, b),
    ensures
        is_walk(large, p),
{
    assert forall|i: int| 0 <= i < p.len() - 1 implies large(#[trigger] p[i], p[i + 1]) by {
        assert(small(p[i], p[i + 1]));
    }
}

/// Where a ranking exists, whatever a walk of the full relation connects is
/// still connected once every edge with a detour is dropped.
pub proof fn lemma_walk_survives(rel: Rel, rank: spec_fn(int) -> int, p: Seq<int>, bound: int)
    requires
        climbs(rel, rank),
        is_walk(rel, p),
        rank(p.last()) - rank(p.first()) <= bound,
    ensures
        reaches(reduced(rel), p.first(), p.last()),
    decreases bound, p.len(),
{
    let red = reduced(rel);
    if p.len() == 1 {
        lemma_reaches_self(red, p[0]);
    } else {
        let a = p[0];
        let b = p[1];
        let rest = p.drop_first();
        assert(rel(p[0], p[1]));
        assert forall|i: int| 0 <= i < rest.len() - 1 implies rel(#[trigger] rest[i], rest[i + 1]) by {
            assert(rel(p[i + 1], p[i + 2]));
        }
        lemma_walk_climbs(rel, rank, rest);
        lemma_walk_climbs(rel, rank, p);
        if has_detour(rel, a, b) {
            let q = choose|q: Seq<int>| walk_between(rel, q, a, b) && q.len() >= 3;
            let head = seq![q[0], q[1]];
            let tail = q.drop_first();
            assert(rel(q[0], q[1]));
            assert(is_walk(rel, head));
            assert forall|i: int| 0 <= i < tail.len() - 1 implies rel(#[trigger] tail[i], tail[i + 1]) by {
                assert(rel(q[i + 1], q[i + 2]));
            }
            lemma_walk_climbs(rel, rank, tail);
            lemma_walk_climbs(rel, rank, head);
            lemma_walk_survives(rel, rank, head, rank(q[1]) - rank(a));
            lemma_walk_survives(rel, rank, tail, rank(b) - rank(q[1]));
            lemma_reaches_trans(red, a, q[1], b);
        } else {
            assert(red(a, b));
            lemma_edge_reaches(red, a, b);
        }
        lemma_walk_survives(rel, rank, rest, rank(p.last()) - rank(b));
        lemma_reaches_trans(red, a, b, p.last());
    }
}

/// In a relation with a ranking, dropping every edge that has a detour leaves
/// reachability as it was.
pub proof fn lemma_reduction_keeps_reach(rel: Rel, rank: spec_fn(int) -> int, a: int, b: int)
    requires
        climbs(rel, rank),
    ensures
        reaches(rel, a, b) <==> reaches(reduced(rel), a, b),
{
    let red = reduced(rel);
    if reaches(rel, a, b) {
        let p = choose|p: Seq<int>| walk_between(rel, p, a, b);
        lemma_walk_survives(rel, rank, p, rank(b) - rank(a));
    }
    if reaches(red, a, b) {
        let p = choose|p: Seq<int>| walk_between(red, p, a, b);
        lemma_walk_mono(red, rel, p);
        assert(walk_between(rel, p, a, b));
    }
}

/// The image of a walk under a map that carries edges to edges is a walk.
pub proof fn lemma_walk_image(from: Rel, to: Rel, f: spec_fn(int) -> int, p: Seq<int>)
    requires
        is_walk(from, p),
        forall|a: int, b: int| #[trigger] from(a, b) ==> to(f(a), f(b)),
    ensures
        is_walk(to, Seq::new(p.len(), |i: int| f(p[i]))),
        walk_between(to, Seq::new(p.len(), |i: int| f(p[i])), f(p.first()), f(p.last())),
{
    let q = Seq::new(p.len(), |i: int| f(p[i]));
    assert forall|i: int| 0 <= i < q.len() - 1 implies to(#[trigger] q[i], q[i + 1]) by {
        assert(from(p[i], p[i + 1]));
    }
}

/// A map that carries edges to edges carries detours to detours, cycles to
/// cycles, and what is reachable to what is reachable.
pub proof fn lemma_image(from: Rel, to: Rel, f: spec_fn(int) -> int, a: int, b: int)
    requires
        forall|x: int, y: int| #[trigger] from(x, y) ==> to(f(x), f(y)),
    ensures
        has_detour(from, a, b) ==> has_detour(to, f(a), f(b)),
        on_cycle(from, a) ==> on_cycle(to, f(a)),
        reaches(from, a, b) ==> reaches(to, f(a), f(b)),
{
    if has_detour(from, a, b) {
        let p = choose|p: Seq<int>| walk_between(from, p, a, b) && p.len() >= 3;
        lemma_walk_image(from, to, f, p);
        let q = Seq::new(p.len(), |i: int| f(p[i]));
        assert(walk_between(to, q, f(a), f(b)) && q.len() >= 3);
    }
    if on_cycle(from, a) {
        let p = choose|p: Seq<int>| walk_between(from, p, a, a) && p.len() >= 2;
        lemma_walk_image(from, to, f, p);
        let q = Seq::new(p.len(), |i: int| f(p[i]));
        assert(walk_between(to, q, f(a), f(a)) && q.len() >= 2);
    }
    if reaches(from, a, b) {
        let p = choose|p: Seq<int>| walk_between(from, p, a, b);
        lemma_walk_image(from, to, f, p);
        let q = Seq::new(p.len(), |i: int| f(p[i]));
        assert(walk_between(to, q, f(a), f(b)));
    }
}

/// Two relations with the same edges have the same detours, the same cycles
/// and the same reachability.
pub proof fn lemma_same_edges(one: Rel, other: Rel, a: int, b: int)
    requires
        forall|x: int, y: int| #[trigger] one(x, y) <==> other(x, y),
    ensures
        has_detour(one, a, b) <==> has_detour(other, a, b),
        on_cycle(one, a) <==> on_cycle(other, a),
        reaches(one, a, b) <==> reaches(other, a, b),
{
    let id = |x: int| x;
    assert forall|x: int, y: int| #[trigger] one(x, y) implies other(id(x), id(y)) by {}
    assert forall|x: int, y: int| #[trigger] other(x, y) implies one(id(x), id(y)) by {
        assert(one(x, y) <==> other(x, y));
    }
    lemma_image(one, other, id, a, b);
    lemma_image(other, one, id, a, b);
}

} // verus!
