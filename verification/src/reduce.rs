//! The transitive reduction of the feature graph.
//!
//! An edge is unnecessary where its target can also be reached from its source
//! over two edges or more. In a graph without cycles, dropping every such
//! edge leaves the smallest set of edges over which every node still reaches
//! what it reached before.

use crate::error::GraphError;
use crate::feat_graph::FeatGraph2;
use crate::optimize::seq_arrows;
use crate::optimize::seq_connects;
use crate::optimize::seq_distinct;
use crate::optimize::seq_has;
use crate::optimize::seq_joined;
use crate::reach::acyclic;
use crate::reach::climbs;
use crate::reach::has_detour;
use crate::reach::lemma_image;
use crate::reach::lemma_ranked_is_acyclic;
use crate::reach::lemma_reduction_keeps_reach;
use crate::reach::lemma_same_edges;
use crate::reach::on_cycle;
use crate::reach::reaches;
use crate::reach::reduced;
use crate::store::edge_rel;
use crate::store::graph_edges;
use crate::store::graph_nodes;
use crate::store::graph_ranked;
use crate::store::graph_retain_reduced;
use crate::store::graph_toposort;
use crate::store::has_edge;
use crate::store::in_row;
use crate::store::is_topological;
use crate::store::placed;
use crate::store::ranked_reduction;
use crate::store::row_rel;
use crate::store::rows_sorted;
use crate::store::spec_keeps;
use vstd::prelude::*;

verus! {

/// The index at which the stored graph carries an identifier.
pub open spec fn slot(gn: Seq<usize>, id: int) -> int {
    choose|k: int| 0 <= k < gn.len() && gn[k] == id
}

/// The identifier of the node at an index.
pub open spec fn id_at(gn: Seq<usize>) -> spec_fn(int) -> int {
    |k: int| gn[k] as int
}

/// The rank of the node with an identifier.
pub open spec fn rank_of(gn: Seq<usize>, revmap: Seq<usize>) -> spec_fn(int) -> int {
    |id: int| revmap[slot(gn, id)] as int
}

/// The identifier of the node with a rank.
pub open spec fn id_of_rank(gn: Seq<usize>, order: Seq<usize>) -> spec_fn(int) -> int {
    |r: int| gn[order[r] as int] as int
}

/// `revmap` gives each node its place in `order`.
pub open spec fn inverse(order: Seq<usize>, revmap: Seq<usize>) -> bool {
    &&& revmap.len() == order.len()
    &&& forall|r: int| 0 <= r < order.len() ==> revmap[#[trigger] order[r] as int] == r
}

/// The rows hold the edges, over ranks in place of indices.
pub open spec fn rows_of(rows: Seq<Seq<usize>>, order: Seq<usize>, ge: Seq<(usize, usize, usize)>) -> bool {
    &&& rows.len() == order.len()
    &&& forall|a: int, b: int|
        0 <= a < order.len() && 0 <= b < order.len() ==> (#[trigger] in_row(rows, a, b) <==> has_edge(
            ge,
            order[a] as int,
            order[b] as int,
        ))
}

/// Among nodes with different identifiers, the index of the identifier at an
/// index is that index.
pub proof fn lemma_slot(gn: Seq<usize>, k: int)
    requires
        seq_distinct(gn),
        0 <= k < gn.len(),
    ensures
        slot(gn, gn[k] as int) == k,
{
    let w = slot(gn, gn[k] as int);
    if w < k {
        assert(gn[w] != gn[k]);
    } else if k < w {
        assert(gn[k] != gn[w]);
    }
}

/// A stored edge between two indices is an edge between their identifiers.
pub proof fn lemma_edge_is_arrow(gn: Seq<usize>, ge: Seq<(usize, usize, usize)>, i: int, j: int)
    requires
        seq_joined(gn, ge),
        has_edge(ge, i, j),
    ensures
        0 <= i < gn.len(),
        0 <= j < gn.len(),
        seq_arrows(gn, ge)(gn[i] as int, gn[j] as int),
{
    let e = choose|e: int| 0 <= e < ge.len() && (#[trigger] ge[e]).0 == i && ge[e].1 == j;
    assert(ge[e].0 < gn.len());
    assert(seq_connects(gn, ge, gn[i] as int, gn[j] as int, ge[e].2 as int));
}

/// An edge between two identifiers is a stored edge between their indices.
pub proof fn lemma_arrow_is_edge(gn: Seq<usize>, ge: Seq<(usize, usize, usize)>, s: int, t: int)
    requires
        seq_distinct(gn),
        seq_joined(gn, ge),
        seq_arrows(gn, ge)(s, t),
    ensures
        seq_has(gn, s),
        seq_has(gn, t),
        0 <= slot(gn, s) < gn.len(),
        0 <= slot(gn, t) < gn.len(),
        gn[slot(gn, s)] == s,
        gn[slot(gn, t)] == t,
        has_edge(ge, slot(gn, s), slot(gn, t)),
{
    let l = choose|l: int| seq_connects(gn, ge, s, t, l);
    let e = choose|e: int|
        0 <= e < ge.len() && gn[(#[trigger] ge[e]).0 as int] == s && gn[ge[e].1 as int] == t && ge[e].2
            == l;
    assert(ge[e].0 < gn.len() && ge[e].1 < gn.len());
    lemma_slot(gn, ge[e].0 as int);
    lemma_slot(gn, ge[e].1 as int);
}

/// Where the stored edges have a cycle through an index, the graph has a
/// cycle through its identifier.
pub proof fn lemma_cycle_to_id(gn: Seq<usize>, ge: Seq<(usize, usize, usize)>, c: int)
    requires
        seq_joined(gn, ge),
        on_cycle(edge_rel(ge), c),
    ensures
        on_cycle(seq_arrows(gn, ge), gn[c] as int),
{
    let from = edge_rel(ge);
    let to = seq_arrows(gn, ge);
    let f = id_at(gn);
    assert forall|x: int, y: int| #[trigger] from(x, y) implies to(f(x), f(y)) by {
        lemma_edge_is_arrow(gn, ge, x, y);
    }
    lemma_image(from, to, f, c, c);
}

/// In an order of all nodes, every node has its place.
pub proof fn lemma_place(order: Seq<usize>, revmap: Seq<usize>, ge: Seq<(usize, usize, usize)>, i: int)
    requires
        is_topological(order, order.len() as int, ge),
        inverse(order, revmap),
        0 <= i < order.len(),
    ensures
        0 <= revmap[i] < order.len(),
        order[revmap[i] as int] == i,
{
    assert(placed(order, i));
    let r = choose|r: int| 0 <= r < order.len() && #[trigger] order[r] == i;
    assert(revmap[order[r] as int] == r);
}

/// Every edge leads to a node of higher rank.
pub proof fn lemma_ranks_climb(
    gn: Seq<usize>,
    ge: Seq<(usize, usize, usize)>,
    order: Seq<usize>,
    revmap: Seq<usize>,
)
    requires
        seq_distinct(gn),
        seq_joined(gn, ge),
        is_topological(order, gn.len() as int, ge),
        inverse(order, revmap),
    ensures
        climbs(seq_arrows(gn, ge), rank_of(gn, revmap)),
{
    let rel = seq_arrows(gn, ge);
    let rank = rank_of(gn, revmap);
    assert forall|s: int, t: int| #[trigger] rel(s, t) implies rank(s) < rank(t) by {
        lemma_arrow_is_edge(gn, ge, s, t);
        let i = slot(gn, s);
        let j = slot(gn, t);
        lemma_place(order, revmap, ge, i);
        lemma_place(order, revmap, ge, j);
        let a = revmap[i] as int;
        let b = revmap[j] as int;
        assert(has_edge(ge, order[a] as int, order[b] as int));
    }
}

/// A detour over ranks is a detour over identifiers, and the other way round.
pub proof fn lemma_detour_ranks(
    gn: Seq<usize>,
    ge: Seq<(usize, usize, usize)>,
    order: Seq<usize>,
    revmap: Seq<usize>,
    rows: Seq<Seq<usize>>,
    i: int,
    j: int,
)
    requires
        seq_distinct(gn),
        seq_joined(gn, ge),
        is_topological(order, gn.len() as int, ge),
        inverse(order, revmap),
        rows_sorted(rows),
        rows_of(rows, order, ge),
        0 <= i < gn.len(),
        0 <= j < gn.len(),
    ensures
        has_detour(row_rel(rows), revmap[i] as int, revmap[j] as int) <==> has_detour(
            seq_arrows(gn, ge),
            gn[i] as int,
            gn[j] as int,
        ),
{
    let ranks = row_rel(rows);
    let ids = seq_arrows(gn, ge);
    let f = id_of_rank(gn, order);
    let g = rank_of(gn, revmap);
    lemma_place(order, revmap, ge, i);
    lemma_place(order, revmap, ge, j);
    lemma_slot(gn, i);
    lemma_slot(gn, j);
    assert forall|x: int, y: int| #[trigger] ranks(x, y) implies ids(f(x), f(y)) by {
        assert(in_row(rows, x, y));
        let k = choose|k: int| 0 <= k < rows[x].len() && #[trigger] rows[x][k] == y;
        assert(x < rows[x][k] < rows.len());
        assert(has_edge(ge, order[x] as int, order[y] as int));
        lemma_edge_is_arrow(gn, ge, order[x] as int, order[y] as int);
    }
    assert forall|s: int, t: int| #[trigger] ids(s, t) implies ranks(g(s), g(t)) by {
        lemma_arrow_is_edge(gn, ge, s, t);
        lemma_place(order, revmap, ge, slot(gn, s));
        lemma_place(order, revmap, ge, slot(gn, t));
        assert(in_row(rows, g(s), g(t)));
    }
    lemma_image(ranks, ids, f, revmap[i] as int, revmap[j] as int);
    lemma_image(ids, ranks, g, gn[i] as int, gn[j] as int);
}

/// What the reduction leaves of the edges: the edges without detour.
pub proof fn lemma_kept_edges(
    gn: Seq<usize>,
    ge: Seq<(usize, usize, usize)>,
    ge2: Seq<(usize, usize, usize)>,
    order: Seq<usize>,
    revmap: Seq<usize>,
    rows: Seq<Seq<usize>>,
    kept: Seq<Vec<usize>>,
)
    requires
        seq_distinct(gn),
        seq_joined(gn, ge),
        is_topological(order, gn.len() as int, ge),
        inverse(order, revmap),
        rows_sorted(rows),
        rows_of(rows, order, ge),
        kept.len() == rows.len(),
        forall|a: int, b: int|
            0 <= a < kept.len() ==> ((exists|k: int|
                0 <= k < kept[a]@.len() && #[trigger] kept[a]@[k] == b) <==> #[trigger] in_row(
                rows,
                a,
                b,
            ) && !has_detour(row_rel(rows), a, b)),
        forall|i: int|
            0 <= i < ge2.len() ==> ge.contains(#[trigger] ge2[i]) && spec_keeps(
                kept,
                revmap,
                ge2[i].0 as int,
                ge2[i].1 as int,
            ),
        forall|j: int|
            0 <= j < ge.len() && spec_keeps(kept, revmap, (#[trigger] ge[j]).0 as int, ge[j].1 as int)
                ==> ge2.contains(ge[j]),
    ensures
        seq_joined(gn, ge2),
        forall|s: int, t: int, l: int| #[trigger]
            seq_connects(gn, ge2, s, t, l) <==> seq_connects(gn, ge, s, t, l) && !has_detour(
                seq_arrows(gn, ge),
                s,
                t,
            ),
{
    assert forall|i: int| 0 <= i < ge2.len() implies (#[trigger] ge2[i]).0 < gn.len() && ge2[i].1
        < gn.len() by {
        assert(ge.contains(ge2[i]));
        let j = choose|j: int| 0 <= j < ge.len() && ge[j] == ge2[i];
        assert(ge[j].0 < gn.len());
    }
    assert forall|s: int, t: int, l: int| #[trigger] seq_connects(gn, ge2, s, t, l) implies seq_connects(
        gn,
        ge,
        s,
        t,
        l,
    ) && !has_detour(seq_arrows(gn, ge), s, t) by {
        let i = choose|i: int|
            0 <= i < ge2.len() && gn[(#[trigger] ge2[i]).0 as int] == s && gn[ge2[i].1 as int] == t
                && ge2[i].2 == l;
        assert(ge.contains(ge2[i]));
        let j = choose|j: int| 0 <= j < ge.len() && ge[j] == ge2[i];
        assert(ge[j].0 < gn.len() && ge[j].1 < gn.len());
        let a = revmap[ge[j].0 as int] as int;
        let b = revmap[ge[j].1 as int] as int;
        lemma_place(order, revmap, ge, ge[j].0 as int);
        assert(spec_keeps(kept, revmap, ge2[i].0 as int, ge2[i].1 as int));
        let k = choose|k: int| 0 <= k < kept[a]@.len() && #[trigger] kept[a]@[k] == revmap[ge[j].1 as int];
        assert(kept[a]@[k] == b);
        assert(0 <= a < kept.len());
        assert(exists|k: int| 0 <= k < kept[a]@.len() && #[trigger] kept[a]@[k] == b);
        assert(in_row(rows, a, b) ==> (in_row(rows, a, b) && !has_detour(row_rel(rows), a, b)));
        lemma_place(order, revmap, ge, ge[j].1 as int);
        assert(has_edge(ge, order[a] as int, order[b] as int));
        assert(in_row(rows, a, b));
        assert(!has_detour(row_rel(rows), a, b));
        lemma_detour_ranks(gn, ge, order, revmap, rows, ge[j].0 as int, ge[j].1 as int);
    }
    assert forall|s: int, t: int, l: int|
        seq_connects(gn, ge, s, t, l) && !has_detour(seq_arrows(gn, ge), s, t) implies #[trigger] seq_connects(
        gn,
        ge2,
        s,
        t,
        l,
    ) by {
        let j = choose|j: int|
            0 <= j < ge.len() && gn[(#[trigger] ge[j]).0 as int] == s && gn[ge[j].1 as int] == t
                && ge[j].2 == l;
        assert(ge[j].0 < gn.len() && ge[j].1 < gn.len());
        let a = revmap[ge[j].0 as int] as int;
        let b = revmap[ge[j].1 as int] as int;
        lemma_place(order, revmap, ge, ge[j].0 as int);
        lemma_place(order, revmap, ge, ge[j].1 as int);
        lemma_detour_ranks(gn, ge, order, revmap, rows, ge[j].0 as int, ge[j].1 as int);
        assert(has_edge(ge, order[a] as int, order[b] as int));
        assert(in_row(rows, a, b));
        assert(in_row(rows, a, b) && !has_detour(row_rel(rows), a, b));
        let k = choose|k: int| 0 <= k < kept[a]@.len() && #[trigger] kept[a]@[k] == b;
        assert(kept[revmap[ge[j].0 as int] as int]@[k] == revmap[ge[j].1 as int]);
        assert(spec_keeps(kept, revmap, ge[j].0 as int, ge[j].1 as int));
        assert(ge2.contains(ge[j]));
        let i = choose|i: int| 0 <= i < ge2.len() && ge2[i] == ge[j];
        assert(gn[ge2[i].0 as int] == s && gn[ge2[i].1 as int] == t && ge2[i].2 == l);
    }
}

/// Dropping the edges with a detour from a graph with ranks that every edge
/// climbs leaves a graph without cycles in which every node reaches what it
/// reached before.
pub proof fn lemma_reduced_graph(
    gn: Seq<usize>,
    ge: Seq<(usize, usize, usize)>,
    ge2: Seq<(usize, usize, usize)>,
    rank: spec_fn(int) -> int,
)
    requires
        climbs(seq_arrows(gn, ge), rank),
        forall|s: int, t: int, l: int| #[trigger]
            seq_connects(gn, ge2, s, t, l) <==> seq_connects(gn, ge, s, t, l) && !has_detour(
                seq_arrows(gn, ge),
                s,
                t,
            ),
    ensures
        acyclic(seq_arrows(gn, ge)),
        acyclic(seq_arrows(gn, ge2)),
        forall|a: int, b: int|
            reaches(seq_arrows(gn, ge), a, b) <==> #[trigger] reaches(seq_arrows(gn, ge2), a, b),
{
    let full = seq_arrows(gn, ge);
    let left = seq_arrows(gn, ge2);
    let red = reduced(full);
    lemma_ranked_is_acyclic(full, rank);
    assert forall|x: int, y: int| #[trigger] left(x, y) <==> red(x, y) by {
        if left(x, y) {
            let l = choose|l: int| seq_connects(gn, ge2, x, y, l);
            assert(seq_connects(gn, ge, x, y, l));
            assert(full(x, y));
        }
        if red(x, y) {
            let l = choose|l: int| seq_connects(gn, ge, x, y, l);
            assert(seq_connects(gn, ge2, x, y, l));
        }
    }
    assert(climbs(left, rank)) by {
        assert forall|x: int, y: int| #[trigger] left(x, y) implies rank(x) < rank(y) by {
            assert(red(x, y));
            assert(full(x, y));
        }
    }
    lemma_ranked_is_acyclic(left, rank);
    assert forall|a: int, b: int| reaches(full, a, b) <==> #[trigger] reaches(left, a, b) by {
        lemma_reduction_keeps_reach(full, rank, a, b);
        lemma_same_edges(left, red, a, b);
    }
}

impl<'a> FeatGraph2<'a> {
    /// The stored edges and the edges of the shape are the same relation.
    pub proof fn lemma_arrows_agree(&self)
        ensures
            forall|x: int, y: int| #[trigger] self.arrows()(x, y) <==> self.shape().arrows()(x, y),
    {
        let gn = graph_nodes(self.features);
        let ge = graph_edges(self.features);
        let one = seq_arrows(gn, ge);
        let other = self.shape().arrows();
        assert forall|x: int, y: int| #[trigger] one(x, y) <==> other(x, y) by {
            if one(x, y) {
                assert(exists|l: int| seq_connects(gn, ge, x, y, l));
                let l = choose|l: int| seq_connects(gn, ge, x, y, l);
                assert(self.connects(x, y, l));
                assert(self.shape().edges.contains((x, y, l)));
            }
            if other(x, y) {
                let l = choose|l: int| self.shape().edges.contains((x, y, l));
                assert(self.connects(x, y, l));
            }
        }
    }

    /// Drops every edge whose target its source also reaches over two edges
    /// or more. The nodes stay, and every node reaches what it reached before.
    /// A graph with a cycle is left as it is and reported.
    pub fn transitive_reduction(&mut self) -> (r: Result<(), GraphError>)
        requires
            old(self).wf(),
        ensures
            match r {
                Ok(_) => {
                    &&& final(self).wf()
                    &&& final(self).same_tables(old(self))
                    &&& final(self).alive == old(self).alive
                    &&& graph_nodes(final(self).features) == graph_nodes(old(self).features)
                    &&& acyclic(old(self).arrows())
                    &&& acyclic(final(self).arrows())
                    &&& forall|s: int, t: int, l: int| #[trigger]
                        final(self).connects(s, t, l) <==> old(self).connects(s, t, l) && !has_detour(
                            old(self).arrows(),
                            s,
                            t,
                        )
                    &&& forall|a: int, b: int|
                        reaches(old(self).arrows(), a, b) <==> #[trigger] reaches(
                            final(self).arrows(),
                            a,
                            b,
                        )
                    &&& final(self).shape() == old(self).shape().reduced()
                    &&& acyclic(old(self).shape().arrows())
                    &&& acyclic(final(self).shape().arrows())
                    &&& forall|a: int, b: int|
                        reaches(old(self).shape().arrows(), a, b) <==> #[trigger] reaches(
                            final(self).shape().arrows(),
                            a,
                            b,
                        )
                },
                Err(e) => {
                    &&& e == GraphError::CyclicFeatureGraph
                    &&& !acyclic(old(self).arrows())
                    &&& !acyclic(old(self).shape().arrows())
                    &&& *final(self) == *old(self)
                },
            },
    {
        proof {
            reveal(FeatGraph2::wf);
        }
        let ghost gn = graph_nodes(self.features);
        let ghost ge = graph_edges(self.features);
        let order = match graph_toposort(&self.features) {
            Ok(order) => order,
            Err(on) => {
                proof {
                    lemma_cycle_to_id(gn, ge, on as int);
                    self.lemma_arrows_agree();
                    lemma_same_edges(self.arrows(), self.shape().arrows(), gn[on as int] as int, 0);
                }
                return Err(GraphError::CyclicFeatureGraph);
            },
        };
        let (ranked, revmap) = graph_ranked(&self.features, &order);
        let kept = ranked_reduction(&ranked);
        proof {
            assert(inverse(order@, revmap@));
            assert forall|i: int| 0 <= i < revmap@.len() implies #[trigger] revmap@[i] < kept@.len() by {
                lemma_place(order@, revmap@, ge, i);
            }
        }
        graph_retain_reduced(&mut self.features, &kept, &revmap);
        proof {
            let ge2 = graph_edges(self.features);
            let rows = crate::store::list_rows(ranked);
            lemma_kept_edges(gn, ge, ge2, order@, revmap@, rows, kept@);
            lemma_ranks_climb(gn, ge, order@, revmap@);
            lemma_reduced_graph(gn, ge, ge2, rank_of(gn, revmap@));
            old(self).lemma_tables_frame(self);
            assert forall|e: int| 0 <= e < ge2.len() implies (#[trigger] ge2[e]).2 < self.links@.len() by {
                assert(ge.contains(ge2[e]));
                let j = choose|j: int| 0 <= j < ge.len() && ge[j] == ge2[e];
                assert(ge[j].2 < self.links@.len());
            }
            old(self).lemma_arrows_agree();
            self.lemma_arrows_agree();
            let before = old(self).shape();
            let after = self.shape();
            assert forall|e: (int, int, int)| after.edges.contains(e) <==> before.reduced().edges.contains(
                e,
            ) by {
                lemma_same_edges(old(self).arrows(), before.arrows(), e.0, e.1);
                assert(self.connects(e.0, e.1, e.2) <==> old(self).connects(e.0, e.1, e.2)
                    && !has_detour(old(self).arrows(), e.0, e.1));
            }
            assert(after.edges =~= before.reduced().edges);
            assert(after.nodes =~= before.nodes);
            assert forall|a: int| !on_cycle(before.arrows(), a) by {
                lemma_same_edges(old(self).arrows(), before.arrows(), a, 0);
            }
            assert forall|a: int| !on_cycle(after.arrows(), a) by {
                lemma_same_edges(self.arrows(), after.arrows(), a, 0);
            }
            assert forall|a: int, b: int|
                reaches(before.arrows(), a, b) <==> #[trigger] reaches(after.arrows(), a, b) by {
                lemma_same_edges(old(self).arrows(), before.arrows(), a, b);
                lemma_same_edges(self.arrows(), after.arrows(), a, b);
                assert(reaches(old(self).arrows(), a, b) <==> reaches(self.arrows(), a, b));
            }
        }
        Ok(())
    }
}

} // verus!
