//! What a node leads to: its edges, and everything that it reaches.

use crate::feat_graph::FeatGraph2;
use crate::optimize::seq_arrows;
use crate::optimize::seq_has;
use crate::propagate::count_false;
use crate::propagate::lemma_count_update;
use crate::reach::is_walk;
use crate::reach::lemma_edge_reaches;
use crate::reach::lemma_image;
use crate::reach::lemma_reaches_self;
use crate::reach::lemma_reaches_trans;
use crate::reach::reaches;
use crate::reach::walk_between;
use crate::reach::Rel;
use crate::reduce::id_at;
use crate::reduce::lemma_arrow_is_edge;
use crate::reduce::lemma_edge_is_arrow;
use crate::reduce::lemma_slot;
use crate::reduce::slot;
use crate::store::edge_rel;
use crate::store::graph_edge_count;
use crate::store::graph_edge_endpoints;
use crate::store::graph_edges;
use crate::store::graph_node_count;
use crate::store::graph_node_weight;
use crate::store::graph_nodes;
use crate::store::graph_out_edges;
use crate::store::has_edge;
use vstd::prelude::*;

verus! {

/// Whether a set of nodes holds the target of every edge that leaves one of
/// the nodes marked in `done`.
pub open spec fn closed_under(rel: Rel, done: Seq<bool>, seen: Seq<bool>) -> bool {
    forall|i: int, j: int|
        0 <= i < done.len() && done[i] && #[trigger] rel(i, j) ==> 0 <= j < seen.len() && seen[j]
}

/// A set that holds the start of a walk, and the target of every edge that
/// leaves one of its nodes, holds the end of the walk.
pub proof fn lemma_closed_holds_walk(rel: Rel, seen: Seq<bool>, p: Seq<int>)
    requires
        is_walk(rel, p),
        0 <= p.first() < seen.len(),
        seen[p.first()],
        closed_under(rel, seen, seen),
    ensures
        0 <= p.last() < seen.len(),
        seen[p.last()],
    decreases p.len(),
{
    if p.len() > 1 {
        let q = p.drop_last();
        assert forall|i: int| 0 <= i < q.len() - 1 implies rel(#[trigger] q[i], q[i + 1]) by {
            assert(rel(p[i], p[i + 1]));
        }
        lemma_closed_holds_walk(rel, seen, q);
        assert(rel(p[p.len() - 2], p[p.len() - 1]));
    }
}

/// The index of a node as a function of its identifier.
pub open spec fn slot_of(gn: Seq<usize>) -> spec_fn(int) -> int {
    |id: int| slot(gn, id)
}

/// The other end and the link of those of the first `n` edges that touch the
/// node `id`: that leave it where `leaving` holds, else that lead to it.
pub open spec fn ends_of(all: Seq<(usize, usize, usize)>, id: int, leaving: bool, n: int) -> Seq<
    (usize, usize),
>
    decreases n,
{
    if n <= 0 {
        Seq::empty()
    } else {
        let rest = ends_of(all, id, leaving, n - 1);
        let e = all[n - 1];
        if leaving && e.0 == id {
            rest.push((e.1, e.2))
        } else if !leaving && e.1 == id {
            rest.push((e.0, e.2))
        } else {
            rest
        }
    }
}

/// Whether a list of ends holds the end `x` with the link `l`.
pub open spec fn lists(ends: Seq<(usize, usize)>, x: int, l: int) -> bool {
    exists|k: int| 0 <= k < ends.len() && (#[trigger] ends[k]).0 == x && ends[k].1 == l
}

/// Whether one of the first `n` edges joins `s` and `t` with the link `l`.
pub open spec fn among(all: Seq<(usize, usize, usize)>, n: int, s: int, t: int, l: int) -> bool {
    exists|j: int| 0 <= j < n && (#[trigger] all[j]).0 == s && all[j].1 == t && all[j].2 == l
}

/// The ends of a node are the other ends of the edges that touch it.
pub proof fn lemma_ends_of(all: Seq<(usize, usize, usize)>, id: int, leaving: bool, n: int, x: int, l: int)
    requires
        0 <= n <= all.len(),
    ensures
        lists(ends_of(all, id, leaving, n), x, l) <==> if leaving {
            among(all, n, id, x, l)
        } else {
            among(all, n, x, id, l)
        },
    decreases n,
{
    if n > 0 {
        lemma_ends_of(all, id, leaving, n - 1, x, l);
        let rest = ends_of(all, id, leaving, n - 1);
        let now = ends_of(all, id, leaving, n);
        let e = all[n - 1];
        let hit = if leaving {
            e.0 == id
        } else {
            e.1 == id
        };
        let other = if leaving {
            e.1
        } else {
            e.0
        };
        if lists(now, x, l) {
            let k = choose|k: int| 0 <= k < now.len() && (#[trigger] now[k]).0 == x && now[k].1 == l;
            if hit && k == now.len() - 1 {
                assert(all[n - 1].2 == l);
            } else {
                assert(rest[k].0 == x && rest[k].1 == l);
                assert(lists(rest, x, l));
                if leaving {
                    let j = choose|j: int|
                        0 <= j < n - 1 && (#[trigger] all[j]).0 == id && all[j].1 == x && all[j].2 == l;
                    assert(0 <= j < n);
                } else {
                    let j = choose|j: int|
                        0 <= j < n - 1 && (#[trigger] all[j]).0 == x && all[j].1 == id && all[j].2 == l;
                    assert(0 <= j < n);
                }
            }
        }
        let wanted = if leaving {
            among(all, n, id, x, l)
        } else {
            among(all, n, x, id, l)
        };
        if wanted {
            let j = if leaving {
                choose|j: int| 0 <= j < n && (#[trigger] all[j]).0 == id && all[j].1 == x && all[j].2 == l
            } else {
                choose|j: int| 0 <= j < n && (#[trigger] all[j]).0 == x && all[j].1 == id && all[j].2 == l
            };
            if j == n - 1 {
                assert(now[now.len() - 1].0 == x && now[now.len() - 1].1 == l);
            } else {
                if leaving {
                    assert(among(all, n - 1, id, x, l));
                } else {
                    assert(among(all, n - 1, x, id, l));
                }
                let k = choose|k: int| 0 <= k < rest.len() && (#[trigger] rest[k]).0 == x && rest[k].1 == l;
                assert(now[k].0 == x && now[k].1 == l);
            }
        }
    }
}

impl<'a> FeatGraph2<'a> {
    /// The other end and the link of every edge that touches a node: that
    /// leaves it where `leaving` holds, else that leads to it.
    fn touching(&self, id: usize, leaving: bool) -> (r: Vec<(usize, usize)>)
        requires
            self.wf(),
        ensures
            forall|x: int, l: int|
                #[trigger] lists(r@, x, l) <==> if leaving {
                    self.connects(id as int, x, l)
                } else {
                    self.connects(x, id as int, l)
                },
    {
        let all = self.edges();
        let mut found: Vec<(usize, usize)> = Vec::new();
        let mut at: usize = 0;
        while at < all.len()
            invariant
                at <= all@.len(),
                found@ == ends_of(all@, id as int, leaving, at as int),
            decreases all@.len() - at,
        {
            if leaving && all[at].0 == id {
                found.push((all[at].1, all[at].2));
            } else if !leaving && all[at].1 == id {
                found.push((all[at].0, all[at].2));
            }
            at += 1;
        }
        proof {
            assert forall|x: int, l: int|
                #[trigger] lists(found@, x, l) <==> if leaving {
                    self.connects(id as int, x, l)
                } else {
                    self.connects(x, id as int, l)
                } by {
                lemma_ends_of(all@, id as int, leaving, all@.len() as int, x, l);
                assert(self.connects(id as int, x, l) <==> among(all@, all@.len() as int, id as int, x, l));
                assert(self.connects(x, id as int, l) <==> among(all@, all@.len() as int, x, id as int, l));
            }
        }
        found
    }

    /// The edges that leave a node: for each the identifier of its target and
    /// of its link.
    pub fn outgoing(&self, id: usize) -> (r: Vec<(usize, usize)>)
        requires
            self.wf(),
        ensures
            forall|t: int, l: int| #[trigger] lists(r@, t, l) <==> self.connects(id as int, t, l),
    {
        self.touching(id, true)
    }

    /// The edges that lead to a node: for each the identifier of its source
    /// and of its link.
    pub fn incoming(&self, id: usize) -> (r: Vec<(usize, usize)>)
        requires
            self.wf(),
        ensures
            forall|s: int, l: int| #[trigger] lists(r@, s, l) <==> self.connects(s, id as int, l),
    {
        self.touching(id, false)
    }
}

/// The identifiers of those of the first `n` nodes that are marked.
pub open spec fn picked(gn: Seq<usize>, seen: Seq<bool>, n: int) -> Seq<usize>
    decreases n,
{
    if n <= 0 {
        Seq::empty()
    } else if seen[n - 1] {
        picked(gn, seen, n - 1).push(gn[n - 1])
    } else {
        picked(gn, seen, n - 1)
    }
}

/// Whether one of the first `n` nodes is marked and carries the identifier.
pub open spec fn marked(gn: Seq<usize>, seen: Seq<bool>, n: int, id: int) -> bool {
    exists|x: int| 0 <= x < n && seen[x] && #[trigger] gn[x] == id
}

/// What is picked is what is marked.
pub proof fn lemma_picked_has(gn: Seq<usize>, seen: Seq<bool>, n: int, id: usize)
    requires
        0 <= n <= gn.len(),
        n <= seen.len(),
    ensures
        picked(gn, seen, n).contains(id) <==> marked(gn, seen, n, id as int),
    decreases n,
{
    if n > 0 {
        lemma_picked_has(gn, seen, n - 1, id);
        let rest = picked(gn, seen, n - 1);
        let now = picked(gn, seen, n);
        if now.contains(id) {
            let k = choose|k: int| 0 <= k < now.len() && now[k] == id;
            if seen[n - 1] && k == now.len() - 1 {
                assert(gn[n - 1] == id);
            } else {
                assert(rest[k] == id);
                assert(rest.contains(id));
                let x = choose|x: int| 0 <= x < n - 1 && seen[x] && #[trigger] gn[x] == id;
                assert(0 <= x < n);
            }
        }
        if marked(gn, seen, n, id as int) {
            let x = choose|x: int| 0 <= x < n && seen[x] && #[trigger] gn[x] == id;
            if x == n - 1 {
                assert(now[now.len() - 1] == id);
            } else {
                assert(marked(gn, seen, n - 1, id as int));
                let k = choose|k: int| 0 <= k < rest.len() && rest[k] == id;
                assert(now[k] == id);
            }
        }
    }
}

/// Among nodes with different identifiers, nothing is picked twice.
pub proof fn lemma_picked_once(gn: Seq<usize>, seen: Seq<bool>, n: int)
    requires
        0 <= n <= gn.len(),
        n <= seen.len(),
        crate::optimize::seq_distinct(gn),
    ensures
        forall|j: int, k: int|
            0 <= j < k < picked(gn, seen, n).len() ==> #[trigger] picked(gn, seen, n)[j]
                != #[trigger] picked(gn, seen, n)[k],
    decreases n,
{
    if n > 0 {
        lemma_picked_once(gn, seen, n - 1);
        let rest = picked(gn, seen, n - 1);
        let now = picked(gn, seen, n);
        if seen[n - 1] {
            assert forall|j: int, k: int| 0 <= j < k < now.len() implies #[trigger] now[j]
                != #[trigger] now[k] by {
                if k == now.len() - 1 {
                    assert(rest[j] == now[j]);
                    assert(rest.contains(rest[j]));
                    lemma_picked_has(gn, seen, n - 1, rest[j]);
                    let x = choose|x: int| 0 <= x < n - 1 && seen[x] && #[trigger] gn[x] == rest[j];
                    assert(gn[x] != gn[n - 1]);
                } else {
                    assert(rest[j] != rest[k]);
                }
            }
        }
    }
}

/// A node reaches only nodes of the graph.
pub proof fn lemma_reached_is_node(gn: Seq<usize>, ge: Seq<(usize, usize, usize)>, from: int, id: int)
    requires
        crate::optimize::seq_distinct(gn),
        crate::optimize::seq_joined(gn, ge),
        seq_has(gn, from),
        reaches(seq_arrows(gn, ge), from, id),
    ensures
        seq_has(gn, id),
{
    let rel = seq_arrows(gn, ge);
    let p = choose|p: Seq<int>| walk_between(rel, p, from, id);
    if p.len() > 1 {
        assert(rel(p[p.len() - 2], p[p.len() - 2 + 1]));
        lemma_arrow_is_edge(gn, ge, p[p.len() - 2], id);
    }
}

/// What the marks say once the search is over: a node is marked exactly when
/// the start reaches it.
pub proof fn lemma_search_is_exact(
    gn: Seq<usize>,
    ge: Seq<(usize, usize, usize)>,
    seen: Seq<bool>,
    start: int,
    id: int,
)
    requires
        crate::optimize::seq_distinct(gn),
        crate::optimize::seq_joined(gn, ge),
        seen.len() == gn.len(),
        0 <= start < gn.len(),
        seen[start],
        closed_under(edge_rel(ge), seen, seen),
        forall|x: int| 0 <= x < gn.len() && #[trigger] seen[x] ==> reaches(edge_rel(ge), start, x),
    ensures
        marked(gn, seen, gn.len() as int, id) <==> reaches(seq_arrows(gn, ge), gn[start] as int, id),
{
    let rel = edge_rel(ge);
    let ids = seq_arrows(gn, ge);
    let from = gn[start] as int;
    lemma_slot(gn, start);
    if marked(gn, seen, gn.len() as int, id) {
        let x = choose|x: int| 0 <= x < gn.len() && seen[x] && #[trigger] gn[x] == id;
        assert forall|a: int, b: int| #[trigger] rel(a, b) implies ids(id_at(gn)(a), id_at(gn)(b)) by {
            lemma_edge_is_arrow(gn, ge, a, b);
        }
        lemma_image(rel, ids, id_at(gn), start, x);
    }
    if reaches(ids, from, id) {
        assert(seq_has(gn, from));
        lemma_reached_is_node(gn, ge, from, id);
        let x = slot(gn, id);
        assert(0 <= x < gn.len() && gn[x] == id);
        assert forall|s: int, t: int| #[trigger] ids(s, t) implies rel(slot_of(gn)(s), slot_of(gn)(t)) by {
            lemma_arrow_is_edge(gn, ge, s, t);
        }
        lemma_image(ids, rel, slot_of(gn), from, id);
        let p = choose|p: Seq<int>| walk_between(rel, p, start, x);
        lemma_closed_holds_walk(rel, seen, p);
        assert(seen[x] && gn[x] == id);
    }
}

/// Whether every marked node is expanded or waits on the stack.
pub open spec fn waiting(seen: Seq<bool>, done: Seq<bool>, stack: Seq<usize>, n: int) -> bool {
    forall|x: int| 0 <= x < n && #[trigger] seen[x] ==> done[x] || stack.contains(x as usize)
}

/// Taking the top off the stack leaves every marked node expanded or
/// waiting, once the top counts as expanded.
pub proof fn lemma_popped(seen: Seq<bool>, done: Seq<bool>, stack: Seq<usize>, n: int)
    requires
        stack.len() > 0,
        stack.last() < n,
        done.len() == n,
        n <= usize::MAX,
        waiting(seen, done, stack, n),
    ensures
        waiting(seen, done.update(stack.last() as int, true), stack.drop_last(), n),
{
    let rest = stack.drop_last();
    let after = done.update(stack.last() as int, true);
    assert forall|x: int| 0 <= x < n && #[trigger] seen[x] implies after[x] || rest.contains(
        x as usize,
    ) by {
        if !done[x] && x != stack.last() {
            let k = choose|k: int| 0 <= k < stack.len() && stack[k] == x as usize;
            assert(rest[k] == x as usize);
        }
    }
}

/// Marking a node and putting it on the stack leaves every marked node
/// expanded or waiting.
pub proof fn lemma_pushed(seen: Seq<bool>, done: Seq<bool>, stack: Seq<usize>, n: int, t: usize)
    requires
        0 <= t < n,
        seen.len() == n,
        n <= usize::MAX,
        waiting(seen, done, stack, n),
    ensures
        waiting(seen.update(t as int, true), done, stack.push(t), n),
{
    let marked = seen.update(t as int, true);
    let grown = stack.push(t);
    assert forall|x: int| 0 <= x < n && #[trigger] marked[x] implies done[x] || grown.contains(
        x as usize,
    ) by {
        if x == t {
            assert(grown[grown.len() - 1] == t);
        } else if !done[x] {
            assert(seen[x]);
            let j = choose|j: int| 0 <= j < stack.len() && stack[j] == x as usize;
            assert(grown[j] == x as usize);
        }
    }
}

/// A node whose every edge leads to a marked node can count as expanded.
pub proof fn lemma_expanded(
    ge: Seq<(usize, usize, usize)>,
    done: Seq<bool>,
    seen: Seq<bool>,
    at: int,
    out: Seq<usize>,
)
    requires
        0 <= at < done.len(),
        ge.len() <= usize::MAX,
        closed_under(edge_rel(ge), done, seen),
        forall|j: int| 0 <= j < out.len() ==> #[trigger] out[j] < ge.len(),
        forall|j: int| 0 <= j < out.len() ==> 0 <= ge[#[trigger] out[j] as int].1 < seen.len() && seen[ge[out[j] as int].1 as int],
        forall|e: usize| e < ge.len() && (#[trigger] ge[e as int]).0 == at ==> out.contains(e),
    ensures
        closed_under(edge_rel(ge), done.update(at, true), seen),
{
    let rel = edge_rel(ge);
    let after = done.update(at, true);
    assert forall|a: int, b: int| 0 <= a < after.len() && after[a] && #[trigger] rel(a, b) implies 0
        <= b < seen.len() && seen[b] by {
        if a == at {
            assert(has_edge(ge, a, b));
            let w = choose|w: int| 0 <= w < ge.len() && (#[trigger] ge[w]).0 == a && ge[w].1 == b;
            let e = w as usize;
            assert(ge[e as int].0 == at);
            assert(out.contains(e));
            let j = choose|j: int| 0 <= j < out.len() && out[j] == e;
            assert(seen[ge[out[j] as int].1 as int]);
        } else {
            assert(done[a]);
        }
    }
}

/// Once nothing waits, the marked nodes hold the target of every edge that
/// leaves one of them.
pub proof fn lemma_search_over(rel: Rel, seen: Seq<bool>, done: Seq<bool>, stack: Seq<usize>)
    requires
        stack.len() == 0,
        done.len() == seen.len(),
        seen.len() <= usize::MAX,
        waiting(seen, done, stack, seen.len() as int),
        closed_under(rel, done, seen),
    ensures
        closed_under(rel, seen, seen),
{
    assert forall|a: int, b: int| 0 <= a < seen.len() && seen[a] && #[trigger] rel(a, b) implies 0
        <= b < seen.len() && seen[b] by {
        assert(done[a] || stack.contains(a as usize));
    }
}

impl<'a> FeatGraph2<'a> {
    /// Everything that a node of the graph reaches, itself included, each
    /// node once. Nothing is reached from what is no node of the graph.
    pub fn reachable(&self, from: usize) -> (r: Vec<usize>)
        requires
            self.wf(),
        ensures
            forall|id: usize|
                #[trigger] r@.contains(id) <==> self.has_node(from as int) && reaches(
                    self.arrows(),
                    from as int,
                    id as int,
                ),
            forall|j: int, k: int| 0 <= j < k < r@.len() ==> #[trigger] r@[j] != #[trigger] r@[k],
    {
        proof {
            reveal(FeatGraph2::wf);
        }
        let ghost gn = graph_nodes(self.features);
        let ghost ge = graph_edges(self.features);
        let ghost rel = edge_rel(ge);
        let n = graph_node_count(&self.features);
        let mut start: usize = 0;
        while start < n && graph_node_weight(&self.features, start) != from
            invariant
                n == gn.len(),
                gn == graph_nodes(self.features),
                start <= n,
                forall|k: int| 0 <= k < start ==> #[trigger] gn[k] != from,
            decreases n - start,
        {
            start += 1;
        }
        if start == n {
            return Vec::new();
        }
        let mut seen: Vec<bool> = Vec::new();
        let mut i: usize = 0;
        while i < n
            invariant
                i <= n,
                seen@.len() == i,
                forall|k: int| 0 <= k < i ==> !#[trigger] seen@[k],
            decreases n - i,
        {
            seen.push(false);
            i += 1;
        }
        seen[start] = true;
        let ghost mut done: Seq<bool> = Seq::new(n as nat, |k: int| false);
        let mut stack: Vec<usize> = Vec::new();
        stack.push(start);
        proof {
            lemma_reaches_self(rel, start as int);
            assert(stack@[0] == start);
            assert(stack@.contains(start));
        }
        while stack.len() > 0
            invariant
                gn == graph_nodes(self.features),
                ge == graph_edges(self.features),
                rel == edge_rel(ge),
                crate::optimize::seq_joined(gn, ge),
                n == gn.len(),
                seen@.len() == n,
                done.len() == n,
                start < n,
                seen@[start as int],
                forall|k: int| 0 <= k < stack@.len() ==> #[trigger] stack@[k] < n && seen@[stack@[k] as int],
                forall|x: int| 0 <= x < n && #[trigger] seen@[x] ==> reaches(rel, start as int, x),
                waiting(seen@, done, stack@, n as int),
                closed_under(rel, done, seen@),
            decreases count_false(seen@), stack@.len(),
        {
            let ghost stack0 = stack@;
            let ghost seen0 = seen@;
            let at = stack.pop().unwrap();
            let ghost rest = stack@;
            proof {
                lemma_popped(seen@, done, stack0, n as int);
                assert(rest =~= stack0.drop_last());
            }
            let out = graph_out_edges(&self.features, at);
            let edges = graph_edge_count(&self.features);
            let mut k: usize = 0;
            while k < out.len()
                invariant
                    gn == graph_nodes(self.features),
                    ge == graph_edges(self.features),
                    rel == edge_rel(ge),
                    crate::optimize::seq_joined(gn, ge),
                    n == gn.len(),
                    seen@.len() == n,
                    done.len() == n,
                    start < n,
                    at < n,
                    edges == ge.len(),
                    seen@[start as int],
                    reaches(rel, start as int, at as int),
                    k <= out@.len(),
                    forall|j: int|
                        0 <= j < out@.len() ==> #[trigger] out@[j] < ge.len() && ge[out@[j] as int].0 == at,
                    forall|e: usize|
                        e < ge.len() && (#[trigger] ge[e as int]).0 == at ==> out@.contains(e),
                    forall|j: int| 0 <= j < k ==> seen@[ge[#[trigger] out@[j] as int].1 as int],
                    forall|j: int|
                        0 <= j < stack@.len() ==> #[trigger] stack@[j] < n && seen@[stack@[j] as int],
                    forall|x: int| 0 <= x < n && #[trigger] seen@[x] ==> reaches(rel, start as int, x),
                    waiting(seen@, done.update(at as int, true), stack@, n as int),
                    closed_under(rel, done, seen@),
                    stack@.len() >= rest.len(),
                    count_false(seen@) <= count_false(seen0),
                    stack@.len() > rest.len() ==> count_false(seen@) < count_false(seen0),
                decreases out@.len() - k,
            {
                let e = out[k];
                let (_s, t) = graph_edge_endpoints(&self.features, e);
                assert(ge[e as int].1 < gn.len());
                assert(has_edge(ge, at as int, t as int));
                if !seen[t] {
                    let ghost before = seen@;
                    let ghost stack1 = stack@;
                    proof {
                        lemma_count_update(before, t as int);
                        lemma_edge_reaches(rel, at as int, t as int);
                        lemma_reaches_trans(rel, start as int, at as int, t as int);
                    }
                    seen[t] = true;
                    stack.push(t);
                    proof {
                        lemma_pushed(before, done.update(at as int, true), stack1, n as int, t);
                    }
                }
                k += 1;
            }
            proof {
                lemma_expanded(ge, done, seen@, at as int, out@);
                done = done.update(at as int, true);
            }
        }
        proof {
            lemma_search_over(rel, seen@, done, stack@);
        }
        let mut found: Vec<usize> = Vec::new();
        let mut x: usize = 0;
        while x < n
            invariant
                gn == graph_nodes(self.features),
                n == gn.len(),
                seen@.len() == n,
                x <= n,
                found@ == picked(gn, seen@, x as int),
            decreases n - x,
        {
            if seen[x] {
                found.push(graph_node_weight(&self.features, x));
            }
            x += 1;
        }
        proof {
            lemma_picked_once(gn, seen@, n as int);
            assert forall|id: usize|
                #[trigger] found@.contains(id) <==> self.has_node(from as int) && reaches(
                    self.arrows(),
                    from as int,
                    id as int,
                ) by {
                lemma_picked_has(gn, seen@, n as int, id);
                lemma_search_is_exact(gn, ge, seen@, start as int, id as int);
            }
        }
        found
    }
}

} // verus!
