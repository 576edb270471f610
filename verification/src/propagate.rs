//! Which of the requested platforms can reach each node.
//!
//! The walk starts at the root with every requested platform. Expanding a node
//! gives each of its successors that has no platforms yet those of the node's
//! platforms on which the edge holds. A node keeps what it was given first:
//! later arrivals over other edges add nothing. Nodes are expanded last seen,
//! first expanded, and each node once.

use crate::error::GraphError;
use crate::feat_graph::out_of;
use crate::feat_graph::FeatGraph2;
use crate::model::EdgeView;
use crate::model::Model;
use crate::platform::allowed_platforms;
use crate::platform::copy_platforms;
use crate::platform::keep_allowed;
use crate::platform::lemma_filter_within;
use crate::platform::lemma_within_trans;
use crate::platform::within;
use crate::store::graph_edge_endpoints;
use crate::store::graph_edges;
use crate::store::graph_out_edges;
use crate::reach::is_walk;
use crate::reach::reaches;
use crate::reach::walk_between;
use crate::reach::Rel;
use vstd::prelude::*;

verus! {

/// The edges that leave `v`, latest first.
pub open spec fn outgoing(edges: Seq<EdgeView>, v: int) -> Seq<usize>
    decreases edges.len(),
{
    if edges.len() == 0 {
        Seq::empty()
    } else if edges.last().source == v {
        seq![(edges.len() - 1) as usize] + outgoing(edges.drop_last(), v)
    } else {
        outgoing(edges.drop_last(), v)
    }
}

/// How many nodes are not expanded yet.
pub open spec fn count_false(done: Seq<bool>) -> nat
    decreases done.len(),
{
    if done.len() == 0 {
        0
    } else if done.last() {
        count_false(done.drop_last())
    } else {
        count_false(done.drop_last()) + 1
    }
}

/// Expanding a node leaves one node less to expand.
pub proof fn lemma_count_update(done: Seq<bool>, v: int)
    requires
        0 <= v < done.len(),
        !done[v],
    ensures
        count_false(done.update(v, true)) + 1 == count_false(done),
    decreases done.len(),
{
    let after = done.update(v, true);
    if v == done.len() - 1 {
        assert(after.drop_last() =~= done.drop_last());
    } else {
        assert(after.drop_last() =~= done.drop_last().update(v, true));
        lemma_count_update(done.drop_last(), v);
    }
}

/// The platforms of the nodes after the first `k` of the edges `out` were
/// followed from a node with the platforms `cur`: the target of an edge that
/// has no platforms yet gets those of `cur` on which the edge holds.
pub open spec fn spread<'a>(
    m: Model,
    cur: Seq<&'a str>,
    out: Seq<usize>,
    k: int,
    plat: Seq<Option<Seq<&'a str>>>,
) -> Option<Seq<Option<Seq<&'a str>>>>
    decreases k,
{
    if k <= 0 {
        Some(plat)
    } else {
        match spread(m, cur, out, k - 1, plat) {
            None => None,
            Some(p) => {
                let e = m.edges[out[k - 1] as int];
                if p[e.target] is Some {
                    Some(p)
                } else {
                    match allowed_platforms(e.link.kinds, cur) {
                        None => None,
                        Some(kept) => Some(p.update(e.target, Some(kept))),
                    }
                }
            },
        }
    }
}

/// The targets of the first `k` of the edges `out`.
pub open spec fn targets(m: Model, out: Seq<usize>, k: int) -> Seq<usize> {
    Seq::new(k as nat, |i: int| m.edges[out[i] as int].target as usize)
}

/// The platforms of all nodes once the walk has come to its end, from a state
/// of the walk: the nodes still to visit, the nodes already expanded, and the
/// platforms given out so far. Nothing comes out where a link cannot be
/// evaluated.
pub open spec fn walk<'a>(
    m: Model,
    requested: Seq<&'a str>,
    stack: Seq<usize>,
    done: Seq<bool>,
    plat: Seq<Option<Seq<&'a str>>>,
) -> Option<Seq<Option<Seq<&'a str>>>>
    decreases count_false(done), stack.len(),
    via walk_decreases
{
    if stack.len() == 0 {
        Some(plat)
    } else {
        let v = stack.last() as int;
        let rest = stack.drop_last();
        if v >= done.len() || done[v] {
            walk(m, requested, rest, done, plat)
        } else {
            let cur = if v == 0 {
                requested
            } else {
                plat[v]->0
            };
            let out = outgoing(m.edges, v);
            match spread(m, cur, out, out.len() as int, plat) {
                None => None,
                Some(p) => walk(
                    m,
                    requested,
                    rest + targets(m, out, out.len() as int),
                    done.update(v, true),
                    p,
                ),
            }
        }
    }
}

/// The walk comes to an end: every step expands a node that was not, or
/// shortens the list of nodes to visit.
#[via_fn]
proof fn walk_decreases<'a>(
    m: Model,
    requested: Seq<&'a str>,
    stack: Seq<usize>,
    done: Seq<bool>,
    plat: Seq<Option<Seq<&'a str>>>,
) {
    if stack.len() != 0 {
        let v = stack.last() as int;
        if !(v >= done.len() || done[v]) {
            lemma_count_update(done, v);
        }
    }
}

/// The platforms of all nodes: the walk from the root, with nothing expanded
/// and nothing given out.
pub open spec fn propagate<'a>(m: Model, requested: Seq<&'a str>) -> Option<
    Seq<Option<Seq<&'a str>>>,
> {
    walk(
        m,
        requested,
        seq![0usize],
        Seq::new(m.nodes.len(), |i: int| false),
        Seq::new(m.nodes.len(), |i: int| None),
    )
}

/// Whether every edge of a graph joins two of its nodes, and nodes and edges
/// can be numbered.
pub open spec fn bounded(m: Model) -> bool {
    &&& m.nodes.len() <= crate::model::limit()
    &&& m.edges.len() <= crate::model::limit()
    &&& forall|e: int|
        0 <= e < m.edges.len() ==> 0 <= (#[trigger] m.edges[e]).source < m.nodes.len() && 0
            <= m.edges[e].target < m.nodes.len()
}

/// Whether the platforms given out so far are requested platforms.
pub open spec fn all_within(plat: Seq<Option<Seq<&str>>>, requested: Seq<&str>) -> bool {
    forall|id: int| 0 <= id < plat.len() && (#[trigger] plat[id]) is Some ==> within(plat[id]->0, requested)
}

/// Whether every node that waits to be visited, the root apart, was given
/// platforms.
pub open spec fn stack_served(stack: Seq<usize>, plat: Seq<Option<Seq<&str>>>) -> bool {
    forall|k: int|
        0 <= k < stack.len() && #[trigger] stack[k] != 0 ==> stack[k] < plat.len() && plat[stack[k] as int] is Some
}

/// The edges that leave a node are edges of the graph.
pub proof fn lemma_outgoing_in_range(edges: Seq<EdgeView>, v: int)
    requires
        edges.len() <= crate::model::limit(),
    ensures
        forall|k: int|
            0 <= k < outgoing(edges, v).len() ==> #[trigger] outgoing(edges, v)[k] < edges.len()
                && edges[outgoing(edges, v)[k] as int].source == v,
    decreases edges.len(),
{
    if edges.len() > 0 {
        lemma_outgoing_in_range(edges.drop_last(), v);
        let rest = outgoing(edges.drop_last(), v);
        let now = outgoing(edges, v);
        assert forall|k: int| 0 <= k < now.len() implies #[trigger] now[k] < edges.len() && edges[now[k] as int].source
            == v by {
            if edges.last().source == v {
                if k > 0 {
                    assert(now[k] == rest[k - 1]);
                    assert(edges.drop_last()[rest[k - 1] as int] == edges[rest[k - 1] as int]);
                }
            } else {
                assert(now[k] == rest[k]);
                assert(edges.drop_last()[rest[k] as int] == edges[rest[k] as int]);
            }
        }
    }
}

/// Following edges from a node with requested platforms gives out requested
/// platforms only, takes nothing back, and serves the target of each edge.
pub proof fn lemma_spread_within<'a>(
    m: Model,
    requested: Seq<&'a str>,
    cur: Seq<&'a str>,
    out: Seq<usize>,
    k: int,
    plat: Seq<Option<Seq<&'a str>>>,
)
    requires
        bounded(m),
        plat.len() == m.nodes.len(),
        0 <= k <= out.len(),
        forall|j: int| 0 <= j < out.len() ==> #[trigger] out[j] < m.edges.len(),
        within(cur, requested),
        all_within(plat, requested),
        spread(m, cur, out, k, plat) is Some,
    ensures
        spread(m, cur, out, k, plat)->0.len() == plat.len(),
        all_within(spread(m, cur, out, k, plat)->0, requested),
        forall|id: int|
            0 <= id < plat.len() && (#[trigger] plat[id]) is Some ==> spread(m, cur, out, k, plat)->0[id]
                == plat[id],
        forall|j: int|
            0 <= j < k ==> spread(m, cur, out, k, plat)->0[m.edges[#[trigger] out[j] as int].target] is Some,
    decreases k,
{
    if k > 0 {
        lemma_spread_within(m, requested, cur, out, k - 1, plat);
        let p = spread(m, cur, out, k - 1, plat)->0;
        let e = m.edges[out[k - 1] as int];
        if p[e.target] is None {
            lemma_filter_within(e.link.kinds, cur, cur.len() as int);
            lemma_within_trans(allowed_platforms(e.link.kinds, cur)->0, cur, requested);
        }
    }
}

/// Every platform that the walk gives to a node is a requested platform.
pub proof fn lemma_walk_within<'a>(
    m: Model,
    requested: Seq<&'a str>,
    stack: Seq<usize>,
    done: Seq<bool>,
    plat: Seq<Option<Seq<&'a str>>>,
)
    requires
        bounded(m),
        plat.len() == m.nodes.len(),
        done.len() == m.nodes.len(),
        all_within(plat, requested),
        stack_served(stack, plat),
        walk(m, requested, stack, done, plat) is Some,
    ensures
        walk(m, requested, stack, done, plat)->0.len() == plat.len(),
        all_within(walk(m, requested, stack, done, plat)->0, requested),
    decreases count_false(done), stack.len(),
{
    if stack.len() != 0 {
        let v = stack.last() as int;
        let rest = stack.drop_last();
        if v >= done.len() || done[v] {
            lemma_walk_within(m, requested, rest, done, plat);
        } else {
            let cur = if v == 0 {
                requested
            } else {
                plat[v]->0
            };
            let out = outgoing(m.edges, v);
            let p = spread(m, cur, out, out.len() as int, plat)->0;
            assert(stack[stack.len() - 1] == v);
            assert(within(cur, requested)) by {
                if v == 0 {
                    assert forall|k: int| 0 <= k < requested.len() implies requested.contains(
                        #[trigger] requested[k],
                    ) by {}
                } else {
                    assert(plat[v] is Some);
                }
            }
            lemma_outgoing_in_range(m.edges, v);
            lemma_spread_within(m, requested, cur, out, out.len() as int, plat);
            lemma_count_update(done, v);
            let next = rest + targets(m, out, out.len() as int);
            lemma_next_served(m, requested, cur, stack, plat);
            lemma_walk_within(m, requested, next, done.update(v, true), p);
        }
    }
}

/// Every platform that a node is given is one of the requested platforms.
pub proof fn lemma_propagate_within<'a>(m: Model, requested: Seq<&'a str>)
    requires
        bounded(m),
        propagate(m, requested) is Some,
    ensures
        propagate(m, requested)->0.len() == m.nodes.len(),
        all_within(propagate(m, requested)->0, requested),
{
    lemma_walk_within(
        m,
        requested,
        seq![0usize],
        Seq::new(m.nodes.len(), |i: int| false),
        Seq::new(m.nodes.len(), |i: int| None),
    );
}

/// The edges of a graph as a relation between its nodes.
pub open spec fn arrows(m: Model) -> Rel {
    |s: int, t: int|
        exists|e: int| 0 <= e < m.edges.len() && (#[trigger] m.edges[e]).source == s && m.edges[e].target == t
}

/// Every edge that leaves a node is among the edges that leave it.
pub proof fn lemma_outgoing_complete(edges: Seq<EdgeView>, v: int, e: int)
    requires
        edges.len() <= crate::model::limit(),
        0 <= e < edges.len(),
        edges[e].source == v,
    ensures
        exists|k: int| 0 <= k < outgoing(edges, v).len() && #[trigger] outgoing(edges, v)[k] == e,
    decreases edges.len(),
{
    let now = outgoing(edges, v);
    if e == edges.len() - 1 {
        assert(now[0] == e);
    } else {
        lemma_outgoing_complete(edges.drop_last(), v, e);
        let rest = outgoing(edges.drop_last(), v);
        let k = choose|k: int| 0 <= k < rest.len() && #[trigger] rest[k] == e;
        if edges.last().source == v {
            assert(now[k + 1] == rest[k]);
        } else {
            assert(now[k] == rest[k]);
        }
    }
}

/// Whether the root reaches a node over one edge or more.
pub open spec fn lands(m: Model, id: int) -> bool {
    exists|p: Seq<int>| walk_between(arrows(m), p, 0, id) && p.len() >= 2
}

/// The root reaches over one edge or more what a node that it reaches has an
/// edge to.
pub proof fn lemma_lands(m: Model, v: int, t: int)
    requires
        reaches(arrows(m), 0, v),
        arrows(m)(v, t),
    ensures
        lands(m, t),
        reaches(arrows(m), 0, t),
{
    let rel = arrows(m);
    let p = choose|p: Seq<int>| walk_between(rel, p, 0, v);
    let q = seq![v, t];
    assert(is_walk(rel, q));
    crate::reach::lemma_join(rel, p, q);
    let r = p + q.drop_first();
    assert(walk_between(rel, r, 0, t) && r.len() >= 2);
}

/// What holds of a state of the walk: what was given platforms is reached
/// from the root over one edge or more, what waits is reached from the root, the successors of
/// what is expanded were given platforms, and what was given platforms is
/// expanded or waits, as does the root.
#[verifier::opaque]
pub open spec fn on_course(m: Model, stack: Seq<usize>, done: Seq<bool>, plat: Seq<Option<Seq<&str>>>) -> bool {
    let n = m.nodes.len();
    &&& forall|id: int| 0 <= id < n && (#[trigger] plat[id]) is Some ==> lands(m, id)
    &&& forall|k: int| 0 <= k < stack.len() ==> #[trigger] stack[k] < n && reaches(arrows(m), 0, stack[k] as int)
    &&& forall|id: int, t: int|
        0 <= id < n && done[id] && #[trigger] arrows(m)(id, t) ==> 0 <= t < n && plat[t] is Some
    &&& forall|id: int|
        0 <= id < n && (#[trigger] plat[id]) is Some ==> done[id] || stack.contains(id as usize)
    &&& 0 < n
    &&& done[0] || stack.contains(0usize)
    &&& forall|id: int| 0 <= id < n && #[trigger] done[id] ==> reaches(arrows(m), 0, id)
}

/// Where the walk is over, every node that the root reaches over one edge or
/// more was given platforms.
pub proof fn lemma_course_done(m: Model, done: Seq<bool>, plat: Seq<Option<Seq<&str>>>, p: Seq<int>)
    requires
        bounded(m),
        plat.len() == m.nodes.len(),
        done.len() == m.nodes.len(),
        on_course(m, Seq::empty(), done, plat),
        is_walk(arrows(m), p),
        p.first() == 0,
    ensures
        0 <= p.last() < m.nodes.len(),
        done[p.last()],
        p.len() >= 2 ==> plat[p.last()] is Some,
    decreases p.len(),
{
    reveal(on_course);
    let empty = Seq::<usize>::empty();
    assert(!empty.contains(0usize));
    if p.len() > 1 {
        let q = p.drop_last();
        assert forall|i: int| 0 <= i < q.len() - 1 implies arrows(m)(#[trigger] q[i], q[i + 1]) by {
            assert(arrows(m)(p[i], p[i + 1]));
        }
        lemma_course_done(m, done, plat, q);
        assert(arrows(m)(p[p.len() - 2], p[p.len() - 2 + 1]));
        let t = p.last();
        assert(plat[t] is Some);
        assert(done[t] || empty.contains(t as usize));
    }
}

/// Following the edges that leave a node keeps the walk on course, once the
/// node counts as expanded and the targets wait.
pub proof fn lemma_spread_on_course<'a>(
    m: Model,
    requested: Seq<&'a str>,
    cur: Seq<&'a str>,
    stack: Seq<usize>,
    done: Seq<bool>,
    plat: Seq<Option<Seq<&'a str>>>,
)
    requires
        bounded(m),
        plat.len() == m.nodes.len(),
        done.len() == m.nodes.len(),
        stack.len() > 0,
        stack.last() < done.len(),
        !done[stack.last() as int],
        on_course(m, stack, done, plat),
        within(cur, requested),
        all_within(plat, requested),
        spread(
            m,
            cur,
            outgoing(m.edges, stack.last() as int),
            outgoing(m.edges, stack.last() as int).len() as int,
            plat,
        ) is Some,
    ensures
        on_course(
            m,
            stack.drop_last() + targets(
                m,
                outgoing(m.edges, stack.last() as int),
                outgoing(m.edges, stack.last() as int).len() as int,
            ),
            done.update(stack.last() as int, true),
            spread(
                m,
                cur,
                outgoing(m.edges, stack.last() as int),
                outgoing(m.edges, stack.last() as int).len() as int,
                plat,
            )->0,
        ),
{
    reveal(on_course);
    let v = stack.last() as int;
    let n = m.nodes.len();
    let rel = arrows(m);
    let out = outgoing(m.edges, v);
    let p = spread(m, cur, out, out.len() as int, plat)->0;
    let rest = stack.drop_last();
    let aims = targets(m, out, out.len() as int);
    let next = rest + aims;
    let after = done.update(v, true);
    lemma_outgoing_in_range(m.edges, v);
    lemma_spread_within(m, requested, cur, out, out.len() as int, plat);
    assert(stack[stack.len() - 1] == v);
    assert(reaches(rel, 0, v));
    assert forall|j: int| 0 <= j < out.len() implies 0 <= m.edges[#[trigger] out[j] as int].target < n
        && reaches(rel, 0, m.edges[out[j] as int].target) && lands(m, m.edges[out[j] as int].target)
        && p[m.edges[out[j] as int].target] is Some && next.contains(
        m.edges[out[j] as int].target as usize,
    ) by {
        let t = m.edges[out[j] as int].target;
        assert(rel(v, t));
        lemma_lands(m, v, t);
        assert(aims[j] == t as usize);
        assert(next[rest.len() + j] == t as usize);
    }
    assert forall|id: int| 0 <= id < n && (#[trigger] p[id]) is Some implies lands(m, id) by {
        if plat[id] is None {
            lemma_served_is_target(m, cur, out, out.len() as int, plat, id);
            let j = choose|j: int| 0 <= j < out.len() && m.edges[#[trigger] out[j] as int].target == id;
            assert(lands(m, m.edges[out[j] as int].target));
        }
    }
    assert forall|id: int| 0 <= id < n && #[trigger] after[id] implies reaches(rel, 0, id) by {}
    assert forall|k: int| 0 <= k < next.len() implies #[trigger] next[k] < n && reaches(
        rel,
        0,
        next[k] as int,
    ) by {
        if k < rest.len() {
            assert(next[k] == stack[k]);
        } else {
            let j = k - rest.len();
            assert(next[k] == aims[j]);
        }
    }
    assert forall|id: int, t: int| 0 <= id < n && after[id] && #[trigger] rel(id, t) implies 0 <= t < n
        && p[t] is Some by {
        if id == v {
            let e = choose|e: int|
                0 <= e < m.edges.len() && (#[trigger] m.edges[e]).source == id && m.edges[e].target == t;
            lemma_outgoing_complete(m.edges, v, e);
            let k = choose|k: int| 0 <= k < out.len() && #[trigger] out[k] == e;
            assert(p[m.edges[out[k] as int].target] is Some);
        } else {
            assert(done[id]);
            assert(plat[t] is Some);
        }
    }
    assert forall|id: int| 0 <= id < n && (#[trigger] p[id]) is Some implies after[id] || next.contains(
        id as usize,
    ) by {
        if plat[id] is Some {
            if !done[id] && id != v {
                let k = choose|k: int| 0 <= k < stack.len() && stack[k] == id as usize;
                assert(next[k] == id as usize);
            }
        } else {
            lemma_served_is_target(m, cur, out, out.len() as int, plat, id);
            let j = choose|j: int| 0 <= j < out.len() && m.edges[#[trigger] out[j] as int].target == id;
            assert(next.contains(m.edges[out[j] as int].target as usize));
        }
    }
    assert(after[0] || next.contains(0usize)) by {
        if !done[0] && v != 0 {
            let k = choose|k: int| 0 <= k < stack.len() && stack[k] == 0usize;
            assert(next[k] == 0usize);
        }
    }
}

/// What is given platforms while the edges are followed is the target of one
/// of them.
pub proof fn lemma_served_is_target<'a>(
    m: Model,
    cur: Seq<&'a str>,
    out: Seq<usize>,
    k: int,
    plat: Seq<Option<Seq<&'a str>>>,
    id: int,
)
    requires
        bounded(m),
        plat.len() == m.nodes.len(),
        0 <= k <= out.len(),
        forall|j: int| 0 <= j < out.len() ==> #[trigger] out[j] < m.edges.len(),
        0 <= id < plat.len(),
        plat[id] is None,
        spread(m, cur, out, k, plat) is Some,
        spread(m, cur, out, k, plat)->0.len() == plat.len(),
        spread(m, cur, out, k, plat)->0[id] is Some,
    ensures
        exists|j: int| 0 <= j < k && m.edges[#[trigger] out[j] as int].target == id,
    decreases k,
{
    if k > 0 {
        let before = spread(m, cur, out, k - 1, plat)->0;
        lemma_spread_len(m, cur, out, k - 1, plat);
        if before[id] is Some {
            lemma_served_is_target(m, cur, out, k - 1, plat, id);
            let j = choose|j: int| 0 <= j < k - 1 && m.edges[#[trigger] out[j] as int].target == id;
            assert(0 <= j < k);
        } else {
            assert(m.edges[out[k - 1] as int].target == id);
        }
    }
}

/// Following edges leaves the number of nodes as it is.
pub proof fn lemma_spread_len<'a>(
    m: Model,
    cur: Seq<&'a str>,
    out: Seq<usize>,
    k: int,
    plat: Seq<Option<Seq<&'a str>>>,
)
    requires
        bounded(m),
        plat.len() == m.nodes.len(),
        0 <= k <= out.len(),
        forall|j: int| 0 <= j < out.len() ==> #[trigger] out[j] < m.edges.len(),
        spread(m, cur, out, k, plat) is Some,
    ensures
        spread(m, cur, out, k, plat)->0.len() == plat.len(),
    decreases k,
{
    if k > 0 {
        lemma_spread_len(m, cur, out, k - 1, plat);
    }
}

/// Passing over a node that is already expanded keeps the walk on course.
pub proof fn lemma_skip_on_course(m: Model, stack: Seq<usize>, done: Seq<bool>, plat: Seq<Option<Seq<&str>>>)
    requires
        bounded(m),
        plat.len() == m.nodes.len(),
        done.len() == m.nodes.len(),
        stack.len() > 0,
        stack.last() >= done.len() || done[stack.last() as int],
        on_course(m, stack, done, plat),
        stack_served(stack, plat),
    ensures
        on_course(m, stack.drop_last(), done, plat),
        stack_served(stack.drop_last(), plat),
{
    reveal(on_course);
    let rest = stack.drop_last();
    assert(stack[stack.len() - 1] == stack.last());
    assert forall|x: int| 0 <= x < m.nodes.len() && (#[trigger] plat[x]) is Some implies done[x]
        || rest.contains(x as usize) by {
        if !done[x] {
            let k = choose|k: int| 0 <= k < stack.len() && stack[k] == x as usize;
            assert(k < stack.len() - 1);
            assert(rest[k] == x as usize);
        }
    }
    if !done[0] {
        let k = choose|k: int| 0 <= k < stack.len() && stack[k] == 0usize;
        assert(k < stack.len() - 1);
        assert(rest[k] == 0usize);
    }
    assert forall|k: int| 0 <= k < rest.len() implies #[trigger] rest[k] < m.nodes.len() && reaches(
        arrows(m),
        0,
        rest[k] as int,
    ) by {
        assert(rest[k] == stack[k]);
    }
    assert forall|k: int| 0 <= k < rest.len() && #[trigger] rest[k] != 0 implies rest[k] < plat.len()
        && plat[rest[k] as int] is Some by {
        assert(rest[k] == stack[k]);
    }
}

/// After the edges that leave a node were followed, what waits was given
/// platforms.
pub proof fn lemma_next_served<'a>(
    m: Model,
    requested: Seq<&'a str>,
    cur: Seq<&'a str>,
    stack: Seq<usize>,
    plat: Seq<Option<Seq<&'a str>>>,
)
    requires
        bounded(m),
        plat.len() == m.nodes.len(),
        stack.len() > 0,
        stack_served(stack, plat),
        within(cur, requested),
        all_within(plat, requested),
        spread(
            m,
            cur,
            outgoing(m.edges, stack.last() as int),
            outgoing(m.edges, stack.last() as int).len() as int,
            plat,
        ) is Some,
    ensures
        stack_served(
            stack.drop_last() + targets(
                m,
                outgoing(m.edges, stack.last() as int),
                outgoing(m.edges, stack.last() as int).len() as int,
            ),
            spread(
                m,
                cur,
                outgoing(m.edges, stack.last() as int),
                outgoing(m.edges, stack.last() as int).len() as int,
                plat,
            )->0,
        ),
{
    let v = stack.last() as int;
    let rest = stack.drop_last();
    let out = outgoing(m.edges, v);
    let p = spread(m, cur, out, out.len() as int, plat)->0;
    let next = rest + targets(m, out, out.len() as int);
    lemma_outgoing_in_range(m.edges, v);
    lemma_spread_within(m, requested, cur, out, out.len() as int, plat);
    assert forall|k: int| 0 <= k < next.len() && #[trigger] next[k] != 0 implies next[k] < p.len()
        && p[next[k] as int] is Some by {
        if k < rest.len() {
            assert(stack[k] == next[k]);
            assert(plat[stack[k] as int] is Some);
        } else {
            let j = k - rest.len();
            assert(next[k] == m.edges[out[j] as int].target as usize);
            assert(p[m.edges[out[j] as int].target] is Some);
        }
    }
}

/// The walk gives platforms to exactly the nodes that the root reaches over
/// one edge or more.
pub proof fn lemma_walk_serves<'a>(
    m: Model,
    requested: Seq<&'a str>,
    stack: Seq<usize>,
    done: Seq<bool>,
    plat: Seq<Option<Seq<&'a str>>>,
    id: int,
)
    requires
        bounded(m),
        plat.len() == m.nodes.len(),
        done.len() == m.nodes.len(),
        all_within(plat, requested),
        stack_served(stack, plat),
        on_course(m, stack, done, plat),
        walk(m, requested, stack, done, plat) is Some,
        0 <= id < m.nodes.len(),
    ensures
        walk(m, requested, stack, done, plat)->0.len() == plat.len(),
        walk(m, requested, stack, done, plat)->0[id] is Some <==> lands(m, id),
    decreases count_false(done), stack.len(),
{
    if stack.len() == 0 {
        assert(stack =~= Seq::empty());
        if walk(m, requested, stack, done, plat)->0[id] is Some {
            assert(lands(m, id)) by {
                reveal(on_course);
            }
        }
        if lands(m, id) {
            let p = choose|p: Seq<int>| walk_between(arrows(m), p, 0, id) && p.len() >= 2;
            lemma_course_done(m, done, plat, p);
        }
    } else {
        let v = stack.last() as int;
        let rest = stack.drop_last();
        assert(stack[stack.len() - 1] == v);
        if v >= done.len() || done[v] {
            lemma_skip_on_course(m, stack, done, plat);
            lemma_walk_serves(m, requested, rest, done, plat, id);
        } else {
            let cur = if v == 0 {
                requested
            } else {
                plat[v]->0
            };
            let out = outgoing(m.edges, v);
            let p = spread(m, cur, out, out.len() as int, plat)->0;
            assert(within(cur, requested)) by {
                if v == 0 {
                    assert forall|k: int| 0 <= k < requested.len() implies requested.contains(
                        #[trigger] requested[k],
                    ) by {}
                } else {
                    assert(plat[v] is Some);
                }
            }
            lemma_outgoing_in_range(m.edges, v);
            lemma_spread_within(m, requested, cur, out, out.len() as int, plat);
            lemma_spread_on_course(m, requested, cur, stack, done, plat);
            lemma_count_update(done, v);
            let next = rest + targets(m, out, out.len() as int);
            lemma_next_served(m, requested, cur, stack, plat);
            lemma_walk_serves(m, requested, next, done.update(v, true), p, id);
        }
    }
}

/// Platforms are given to exactly the nodes that the root reaches over one
/// edge or more: to every node that it reaches, but to itself only where it
/// lies on a cycle.
pub proof fn lemma_propagate_serves<'a>(m: Model, requested: Seq<&'a str>, id: int)
    requires
        bounded(m),
        m.nodes.len() > 0,
        propagate(m, requested) is Some,
        0 <= id < m.nodes.len(),
    ensures
        propagate(m, requested)->0[id] is Some <==> lands(m, id),
{
    let stack = seq![0usize];
    let done = Seq::new(m.nodes.len(), |i: int| false);
    let plat = Seq::new(m.nodes.len(), |i: int| None::<Seq<&'a str>>);
    crate::reach::lemma_reaches_self(arrows(m), 0);
    assert(stack[0] == 0usize);
    assert(stack.contains(0usize));
    assert(on_course(m, stack, done, plat)) by {
        reveal(on_course);
    }
    lemma_walk_serves(m, requested, stack, done, plat, id);
}

/// Once following the edges has failed, it stays failed.
pub proof fn lemma_spread_sticky(
    m: Model,
    cur: Seq<&str>,
    out: Seq<usize>,
    k: int,
    n: int,
    plat: Seq<Option<Seq<&str>>>,
)
    requires
        0 <= k <= n,
        spread(m, cur, out, k, plat) is None,
    ensures
        spread(m, cur, out, n, plat) is None,
    decreases n - k,
{
    if k < n {
        lemma_spread_sticky(m, cur, out, k, n - 1, plat);
    }
}

/// The stored edges and the edges of the model give the same order.
pub proof fn lemma_outgoing_agrees(raw: Seq<(usize, usize, usize)>, edges: Seq<EdgeView>, v: int)
    requires
        raw.len() == edges.len(),
        forall|e: int| 0 <= e < raw.len() ==> (#[trigger] raw[e]).0 == edges[e].source,
    ensures
        out_of(raw, v) == outgoing(edges, v),
    decreases raw.len(),
{
    if raw.len() > 0 {
        assert(raw.last().0 == edges.last().source);
        lemma_outgoing_agrees(raw.drop_last(), edges.drop_last(), v);
    }
}

/// Giving out platforms leaves the shape of a graph as it is.
pub proof fn lemma_platforms_frame(a: FeatGraph2, b: FeatGraph2)
    requires
        a.fresh(),
        b.workspace_members == a.workspace_members,
        b.features == a.features,
        b.fids == a.fids,
        b.meta == a.meta,
        b.root == a.root,
        b.library_renames == a.library_renames,
        b.nodes == a.nodes,
        b.links == a.links,
        b.alive == a.alive,
        b.platforms@.len() == a.platforms@.len(),
    ensures
        b.fresh(),
        b.model() == a.model(),
{
    reveal(FeatGraph2::fresh);
    reveal(FeatGraph2::tables_wf);
    assert(b.node_views() =~= a.node_views());
    assert(b.model().edges =~= a.model().edges);
}

impl<'a> FeatGraph2<'a> {
    /// Computes for every node that the root reaches those of the requested
    /// platforms on which it can be active. The shape of the graph stays as it
    /// is. The walk fails where it meets a link that cannot be evaluated for
    /// one of the platforms at hand.
    pub fn fill_in_platforms(&mut self, platforms: Vec<&'a str>) -> (r: Result<(), GraphError>)
        requires
            old(self).building(),
        ensures
            final(self).meta == old(self).meta,
            match r {
                Ok(_) => {
                    &&& final(self).fresh()
                    &&& final(self).model() == old(self).model()
                    &&& propagate(old(self).model(), platforms@) == Some(
                        final(self).platform_views(),
                    )
                    &&& all_within(final(self).platform_views(), platforms@)
                    &&& forall|id: int|
                        0 <= id < final(self).nodes@.len() ==> ((#[trigger] final(self).platform_views()[id]) is Some <==> lands(old(self).model(), id))
                },
                Err(e) => e == GraphError::Unevaluated && propagate(old(self).model(), platforms@)
                    is None,
            },
    {
        proof {
            reveal(FeatGraph2::building);
            reveal(FeatGraph2::fresh);
            reveal(FeatGraph2::tables_wf);
        }
        let ghost m = self.model();
        proof {
            assert(bounded(m));
        }
        let n = self.nodes.len();
        let mut done: Vec<bool> = Vec::new();
        let mut i: usize = 0;
        while i < n
            invariant
                i <= n,
                done@.len() == i,
                forall|j: int| 0 <= j < i ==> !#[trigger] done@[j],
            decreases n - i,
        {
            done.push(false);
            i += 1;
        }
        let mut to_visit: Vec<usize> = Vec::new();
        to_visit.push(self.root);
        proof {
            assert(done@ =~= Seq::new(m.nodes.len(), |i: int| false));
            assert(self.platform_views() =~= Seq::new(m.nodes.len(), |i: int| None));
            assert(to_visit@ =~= seq![0usize]);
        }
        while to_visit.len() > 0
            invariant
                self.fresh(),
                self.model() == m,
                self.meta == old(self).meta,
                m == old(self).model(),
                n == self.nodes@.len(),
                done@.len() == n,
                self.platforms@.len() == n,
                forall|k: int| 0 <= k < to_visit@.len() ==> #[trigger] to_visit@[k] < n,
                forall|k: int|
                    0 <= k < to_visit@.len() && #[trigger] to_visit@[k] != 0
                        ==> self.platforms@[to_visit@[k] as int] is Some,
                walk(m, platforms@, to_visit@, done@, self.platform_views()) == propagate(
                    m,
                    platforms@,
                ),
            decreases count_false(done@), to_visit@.len(),
        {
            let ghost stack = to_visit@;
            let ghost plat0 = self.platform_views();
            let ghost done0 = done@;
            let v = to_visit.pop().unwrap();
            let ghost rest = to_visit@;
            assert(rest =~= stack.drop_last());
            if !done[v] {
                proof {
                    reveal(FeatGraph2::fresh);
                    reveal(FeatGraph2::tables_wf);
                    lemma_count_update(done0, v as int);
                }
                let cur = if v == 0 {
                    copy_platforms(&platforms)
                } else {
                    copy_platforms(self.platforms[v].as_ref().unwrap())
                };
                let out = graph_out_edges(&self.features, v);
                proof {
                    lemma_outgoing_agrees(graph_edges(self.features), m.edges, v as int);
                    assert(out@ == outgoing(m.edges, v as int));
                    assert(cur@ == if v == 0 {
                        platforms@
                    } else {
                        plat0[v as int]->0
                    });
                    assert(to_visit@ =~= rest + targets(m, out@, 0));
                }
                let mut k: usize = 0;
                while k < out.len()
                    invariant
                        self.fresh(),
                        self.model() == m,
                        self.meta == old(self).meta,
                        n == self.nodes@.len(),
                        self.platforms@.len() == n,
                        k <= out@.len(),
                        m == old(self).model(),
                        v < n,
                        done0.len() == n,
                        out@ == outgoing(m.edges, v as int),
                        forall|j: int|
                            0 <= j < out@.len() ==> #[trigger] out@[j] < graph_edges(
                                self.features,
                            ).len(),
                        spread(m, cur@, out@, k as int, plat0) == Some(self.platform_views()),
                        to_visit@ == rest + targets(m, out@, k as int),
                        forall|j: int| 0 <= j < to_visit@.len() ==> #[trigger] to_visit@[j] < n,
                        forall|j: int|
                            0 <= j < to_visit@.len() && #[trigger] to_visit@[j] != 0
                                ==> self.platforms@[to_visit@[j] as int] is Some,
                        walk(m, platforms@, stack, done0, plat0) == (match spread(
                            m,
                            cur@,
                            out@,
                            out@.len() as int,
                            plat0,
                        ) {
                            None => None,
                            Some(p) => walk(
                                m,
                                platforms@,
                                rest + targets(m, out@, out@.len() as int),
                                done0.update(v as int, true),
                                p,
                            ),
                        }),
                        walk(m, platforms@, stack, done0, plat0) == propagate(m, platforms@),
                    decreases out@.len() - k,
                {
                    proof {
                        reveal(FeatGraph2::fresh);
                        reveal(FeatGraph2::tables_wf);
                    }
                    let e = out[k];
                    let (_s, t) = graph_edge_endpoints(&self.features, e);
                    let ghost before = *self;
                    assert(m.edges[e as int].target == t);
                    assert(m.edges[e as int].link == self.links@[e as int]@);
                    if self.platforms[t].is_none() {
                        match keep_allowed(self.links[e].kinds, &cur) {
                            None => {
                                proof {
                                    lemma_spread_sticky(
                                        m,
                                        cur@,
                                        out@,
                                        k + 1,
                                        out@.len() as int,
                                        plat0,
                                    );
                                }
                                return Err(GraphError::Unevaluated);
                            },
                            Some(kept) => {
                                self.platforms[t] = Some(kept);
                                proof {
                                    lemma_platforms_frame(before, *self);
                                    assert(self.platform_views() =~= before.platform_views().update(
                                        t as int,
                                        Some(kept@),
                                    ));
                                }
                            },
                        }
                    }
                    to_visit.push(t);
                    proof {
                        assert(to_visit@ =~= rest + targets(m, out@, k + 1));
                    }
                    k += 1;
                }
                done[v] = true;
            } else {
                assert(to_visit@.len() < stack.len());
            }
        }
        proof {
            lemma_propagate_within(m, platforms@);
            assert forall|id: int| 0 <= id < self.nodes@.len() implies ((
            #[trigger] self.platform_views()[id]) is Some <==> lands(m, id)) by {
                lemma_propagate_serves(m, platforms@, id);
            }
        }
        Ok(())
    }
}

} // verus!
