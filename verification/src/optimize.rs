//! Cutting the graph down: nodes that no requested platform reaches, external
//! features that nothing requires, and edges that a longer way makes
//! unnecessary.

use crate::feat_graph::FeatGraph2;
use crate::ident::Feature;
use crate::error::GraphError;
use crate::reach::acyclic;
use crate::reach::reaches;
use crate::reach::Rel;
use crate::shape::fed;
use crate::shape::starved;
use crate::shape::Shape;
use crate::store::graph_edges;
use crate::store::graph_node_count;
use crate::store::graph_node_weight;
use crate::store::graph_nodes;
use crate::store::graph_remove_node;
use crate::store::graph_sources;
use crate::store::is_source;
use crate::store::moved;
use crate::store::came_from;
use crate::store::edges_without;
use vstd::prelude::*;

verus! {

/// Whether a stored graph with the nodes `gn` carries the identifier `id`.
pub open spec fn seq_has(gn: Seq<usize>, id: int) -> bool {
    exists|k: int| 0 <= k < gn.len() && #[trigger] gn[k] == id
}

/// Whether a stored graph with the nodes `gn` and the edges `ge` has an edge
/// with the link `l` from the node `s` to the node `t`, all three given by
/// their identifiers.
pub open spec fn seq_connects(gn: Seq<usize>, ge: Seq<(usize, usize, usize)>, s: int, t: int, l: int) -> bool {
    exists|e: int|
        0 <= e < ge.len() && gn[(#[trigger] ge[e]).0 as int] == s && gn[ge[e].1 as int] == t
            && ge[e].2 == l
}

/// The edges of a stored graph as a relation between node identifiers.
pub open spec fn seq_arrows(gn: Seq<usize>, ge: Seq<(usize, usize, usize)>) -> Rel {
    |s: int, t: int| exists|l: int| seq_connects(gn, ge, s, t, l)
}

/// No identifier stands twice among the nodes.
pub open spec fn seq_distinct(gn: Seq<usize>) -> bool {
    forall|j: int, k: int| 0 <= j < k < gn.len() ==> #[trigger] gn[j] != #[trigger] gn[k]
}

/// Every edge joins two of the nodes.
pub open spec fn seq_joined(gn: Seq<usize>, ge: Seq<(usize, usize, usize)>) -> bool {
    forall|e: int| 0 <= e < ge.len() ==> (#[trigger] ge[e]).0 < gn.len() && ge[e].1 < gn.len()
}

/// Taking the node at `at` out of the nodes takes its identifier out and
/// leaves every other.
pub proof fn lemma_remove_nodes(gn: Seq<usize>, at: usize)
    requires
        seq_distinct(gn),
        at < gn.len(),
    ensures
        seq_distinct(gn.update(at as int, gn.last()).drop_last()),
        forall|id: int| #[trigger]
            seq_has(gn.update(at as int, gn.last()).drop_last(), id) <==> seq_has(gn, id) && id
                != gn[at as int],
{
    let gn2 = gn.update(at as int, gn.last()).drop_last();
    let last = gn.len() - 1;
    assert forall|j: int, k: int| 0 <= j < k < gn2.len() implies #[trigger] gn2[j]
        != #[trigger] gn2[k] by {
        if j == at {
            assert(gn[k] != gn[last]);
        } else if k == at {
            assert(gn[j] != gn[last]);
        } else {
            assert(gn[j] != gn[k]);
        }
    }
    assert forall|x: int| #[trigger] seq_has(gn2, x) <==> seq_has(gn, x) && x != gn[at as int] by {
        if seq_has(gn2, x) {
            let k = choose|k: int| 0 <= k < gn2.len() && gn2[k] == x;
            if k == at {
                assert(gn[last] == x);
                assert(gn[at as int] != gn[last]);
            } else {
                assert(gn[k] == x);
                if k < at {
                    assert(gn[k] != gn[at as int]);
                } else {
                    assert(gn[at as int] != gn[k]);
                }
            }
        }
        if seq_has(gn, x) && x != gn[at as int] {
            let k = choose|k: int| 0 <= k < gn.len() && gn[k] == x;
            if k == last {
                assert(gn2[at as int] == x);
            } else {
                assert(gn2[k] == x);
            }
        }
    }
}

/// The node that was at `k` before the removal of the node at `at` is at its
/// new index afterwards.
pub proof fn lemma_moved_node(gn: Seq<usize>, at: usize, k: usize)
    requires
        seq_distinct(gn),
        at < gn.len(),
        k < gn.len(),
        k != at,
    ensures
        moved(k, at, gn.len() - 1) < gn.len() - 1,
        gn.update(at as int, gn.last()).drop_last()[moved(k, at, gn.len() - 1) as int] == gn[k as int],
        gn[k as int] != gn[at as int],
{
    if k < at {
        assert(gn[k as int] != gn[at as int]);
    } else {
        assert(gn[at as int] != gn[k as int]);
    }
}

/// An edge that comes from an edge of before joins the same identifiers as
/// that edge did.
pub proof fn lemma_came_from(
    gn: Seq<usize>,
    b: (usize, usize, usize),
    a: (usize, usize, usize),
    at: usize,
)
    requires
        seq_distinct(gn),
        at < gn.len(),
        b.0 < gn.len(),
        b.1 < gn.len(),
        came_from(b, a, at, gn.len() as int),
    ensures
        a.0 < gn.len() - 1,
        a.1 < gn.len() - 1,
        a.2 == b.2,
        gn.update(at as int, gn.last()).drop_last()[a.0 as int] == gn[b.0 as int],
        gn.update(at as int, gn.last()).drop_last()[a.1 as int] == gn[b.1 as int],
        gn[b.0 as int] != gn[at as int],
        gn[b.1 as int] != gn[at as int],
{
    lemma_moved_node(gn, at, b.0);
    lemma_moved_node(gn, at, b.1);
}

/// Taking the node at `at` out of a graph takes out the edges that touch it
/// and leaves every other edge between the nodes that it joined.
pub proof fn lemma_remove_edges(
    gn: Seq<usize>,
    ge: Seq<(usize, usize, usize)>,
    ge2: Seq<(usize, usize, usize)>,
    at: usize,
    links: int,
)
    requires
        seq_distinct(gn),
        seq_joined(gn, ge),
        at < gn.len(),
        edges_without(ge, ge2, at, gn.len() as int),
        forall|j: int| 0 <= j < ge.len() ==> (#[trigger] ge[j]).2 < links,
    ensures
        seq_joined(gn.update(at as int, gn.last()).drop_last(), ge2),
        forall|i: int| 0 <= i < ge2.len() ==> (#[trigger] ge2[i]).2 < links,
        forall|s: int, t: int, l: int| #[trigger]
            seq_connects(gn.update(at as int, gn.last()).drop_last(), ge2, s, t, l) <==> seq_connects(
                gn,
                ge,
                s,
                t,
                l,
            ) && s != gn[at as int] && t != gn[at as int],
{
    let gn2 = gn.update(at as int, gn.last()).drop_last();
    let count = gn.len() as int;
    assert forall|i: int| 0 <= i < ge2.len() implies (#[trigger] ge2[i]).0 < gn2.len() && ge2[i].1
        < gn2.len() && ge2[i].2 < links by {
        let j = choose|j: int| 0 <= j < ge.len() && came_from(#[trigger] ge[j], ge2[i], at, count);
        lemma_came_from(gn, ge[j], ge2[i], at);
    }
    assert forall|s: int, t: int, l: int| #[trigger]
        seq_connects(gn2, ge2, s, t, l) implies seq_connects(gn, ge, s, t, l) && s != gn[at as int]
        && t != gn[at as int] by {
        let i = choose|i: int|
            0 <= i < ge2.len() && gn2[(#[trigger] ge2[i]).0 as int] == s && gn2[ge2[i].1 as int] == t
                && ge2[i].2 == l;
        let j = choose|j: int| 0 <= j < ge.len() && came_from(#[trigger] ge[j], ge2[i], at, count);
        lemma_came_from(gn, ge[j], ge2[i], at);
        assert(gn[ge[j].0 as int] == s && gn[ge[j].1 as int] == t && ge[j].2 == l);
    }
    assert forall|s: int, t: int, l: int|
        seq_connects(gn, ge, s, t, l) && s != gn[at as int] && t != gn[at as int] implies #[trigger]
        seq_connects(gn2, ge2, s, t, l) by {
        let j = choose|j: int|
            0 <= j < ge.len() && gn[(#[trigger] ge[j]).0 as int] == s && gn[ge[j].1 as int] == t
                && ge[j].2 == l;
        assert(ge[j].0 != at && ge[j].1 != at);
        let i = choose|i: int| 0 <= i < ge2.len() && came_from(ge[j], #[trigger] ge2[i], at, count);
        lemma_came_from(gn, ge[j], ge2[i], at);
        assert(gn2[ge2[i].0 as int] == s && gn2[ge2[i].1 as int] == t && ge2[i].2 == l);
    }
}

impl<'a> FeatGraph2<'a> {
    /// Whether the node with this identifier is in the graph.
    pub open spec fn has_node(&self, id: int) -> bool {
        seq_has(graph_nodes(self.features), id)
    }

    /// Whether an edge with the link `l` leads from the node `s` to the node
    /// `t`, all three given by their identifiers.
    pub open spec fn connects(&self, s: int, t: int, l: int) -> bool {
        seq_connects(graph_nodes(self.features), graph_edges(self.features), s, t, l)
    }

    /// The edges as a relation between node identifiers.
    pub open spec fn arrows(&self) -> Rel {
        seq_arrows(graph_nodes(self.features), graph_edges(self.features))
    }

    /// Whether no edge leads to the node.
    pub open spec fn is_entry(&self, id: int) -> bool {
        forall|s: int, l: int| !self.connects(s, id, l)
    }

    /// Whether the node is an external feature.
    pub open spec fn is_external(&self, id: int) -> bool {
        0 <= id < self.nodes@.len() && self.nodes@[id] is External
    }

    /// Whether the node was found to be active on no requested platform.
    pub open spec fn starved(&self, id: int) -> bool {
        starved(self.platform_views(), id)
    }

    /// What holds of a graph at all times: the stored graph carries each
    /// identifier at most once, `alive` marks the identifiers that it
    /// carries, and its edges join nodes that it has and carry links that
    /// exist.
    #[verifier::opaque]
    pub open spec fn wf(&self) -> bool {
        let gn = graph_nodes(self.features);
        let ge = graph_edges(self.features);
        &&& self.tables_wf()
        &&& self.alive@.len() == self.nodes@.len()
        &&& forall|k: int| 0 <= k < gn.len() ==> #[trigger] gn[k] < self.nodes@.len()
        &&& seq_distinct(gn)
        &&& forall|id: int| 0 <= id < self.nodes@.len() ==> (#[trigger] self.alive@[id] <==> self.has_node(id))
        &&& seq_joined(gn, ge)
        &&& forall|e: int| 0 <= e < ge.len() ==> (#[trigger] ge[e]).2 < self.links@.len()
    }

    /// A graph from which nothing was removed is well formed.
    pub proof fn lemma_fresh_is_wf(&self)
        requires
            self.fresh(),
        ensures
            self.wf(),
            forall|id: int| self.has_node(id) <==> 0 <= id < self.nodes@.len(),
    {
        reveal(FeatGraph2::fresh);
        reveal(FeatGraph2::tables_wf);
        reveal(FeatGraph2::wf);
        let gn = graph_nodes(self.features);
        assert forall|id: int| self.has_node(id) <==> 0 <= id < self.nodes@.len() by {
            if 0 <= id < self.nodes@.len() {
                assert(gn[id] == id);
            }
        }
    }

    /// The same fields but for the stored graph and the marks in `alive`.
    pub open spec fn same_tables(&self, other: &FeatGraph2<'a>) -> bool {
        &&& self.workspace_members == other.workspace_members
        &&& self.fids == other.fids
        &&& self.platforms == other.platforms
        &&& self.meta == other.meta
        &&& self.root == other.root
        &&& self.library_renames == other.library_renames
        &&& self.nodes == other.nodes
        &&& self.links == other.links
    }

    /// Removes the node at index `at` of the stored graph, and with it every
    /// edge that touches it. All other nodes and edges stay.
    pub fn remove_at(&mut self, at: usize)
        requires
            old(self).wf(),
            at < graph_nodes(old(self).features).len(),
        ensures
            final(self).wf(),
            final(self).same_tables(old(self)),
            graph_nodes(final(self).features) == graph_nodes(old(self).features).update(
                at as int,
                graph_nodes(old(self).features).last(),
            ).drop_last(),
            forall|id: int|
                #[trigger] final(self).has_node(id) <==> old(self).has_node(id) && id != graph_nodes(
                    old(self).features,
                )[at as int],
            forall|s: int, t: int, l: int|
                #[trigger] final(self).connects(s, t, l) <==> old(self).connects(s, t, l) && s
                    != graph_nodes(old(self).features)[at as int] && t != graph_nodes(
                    old(self).features,
                )[at as int],
    {
        proof {
            reveal(FeatGraph2::wf);
        }
        let id = graph_node_weight(&self.features, at);
        let ghost gn = graph_nodes(self.features);
        let ghost ge = graph_edges(self.features);
        graph_remove_node(&mut self.features, at);
        self.alive[id] = false;
        proof {
            let ge2 = graph_edges(self.features);
            lemma_remove_nodes(gn, at);
            lemma_remove_edges(gn, ge, ge2, at, self.links@.len() as int);
            old(self).lemma_tables_frame(self);
            assert forall|x: int| 0 <= x < self.nodes@.len() implies (#[trigger] self.alive@[x]
                <==> self.has_node(x)) by {
                assert(old(self).alive@[x] <==> old(self).has_node(x));
                assert(self.has_node(x) <==> old(self).has_node(x) && x != gn[at as int]);
            }
        }
    }

    /// The tables stay well formed when only the stored graph and the marks
    /// in `alive` change.
    pub proof fn lemma_tables_frame(&self, other: &FeatGraph2<'a>)
        requires
            self.tables_wf(),
            other.same_tables(self),
            other.alive@.len() == self.alive@.len(),
        ensures
            other.tables_wf(),
    {
        reveal(FeatGraph2::tables_wf);
        assert(other.node_views() =~= self.node_views());
    }

    /// The nodes and edges of the graph.
    pub open spec fn shape(&self) -> Shape {
        Shape {
            nodes: Set::new(|id: int| self.has_node(id)),
            edges: Set::new(|e: (int, int, int)| self.connects(e.0, e.1, e.2)),
        }
    }

    /// The nodes that are external features.
    pub open spec fn externals(&self) -> Set<int> {
        Set::new(|id: int| self.is_external(id))
    }

    /// Whether a set of nodes can stand by itself: each of its external
    /// features is required by a node of the set.
    pub open spec fn closed(&self, kept: Set<int>) -> bool {
        self.shape().closed(self.externals(), kept)
    }

    /// Whether a node is required: it belongs to a set of nodes that can stand
    /// by itself.
    pub open spec fn required(&self, id: int) -> bool {
        self.shape().requires_node(self.externals(), id)
    }

    /// Whether this graph is what is left of `before` after nodes were
    /// removed: it has no node and no edge that `before` lacks, and it has
    /// every edge of `before` between two nodes that it still has.
    pub open spec fn cut_from(&self, before: &FeatGraph2<'a>) -> bool {
        &&& self.same_tables(before)
        &&& forall|id: int| #[trigger] self.has_node(id) ==> before.has_node(id)
        &&& forall|s: int, t: int, l: int| #[trigger]
            self.connects(s, t, l) <==> before.connects(s, t, l) && self.has_node(s)
                && self.has_node(t)
    }

    /// A graph is what is left of itself when nothing is removed.
    pub proof fn lemma_cut_refl(&self)
        requires
            self.wf(),
        ensures
            self.cut_from(self),
            forall|s: int, t: int, l: int| #[trigger]
                self.connects(s, t, l) ==> self.has_node(s) && self.has_node(t),
    {
        reveal(FeatGraph2::wf);
        let gn = graph_nodes(self.features);
        let ge = graph_edges(self.features);
        assert forall|s: int, t: int, l: int| #[trigger] self.connects(s, t, l) implies self.has_node(
            s,
        ) && self.has_node(t) by {
            let e = choose|e: int|
                0 <= e < ge.len() && gn[(#[trigger] ge[e]).0 as int] == s && gn[ge[e].1 as int] == t
                    && ge[e].2 == l;
            assert(ge[e].0 < gn.len() && ge[e].1 < gn.len());
        }
    }

    /// The identifier of the node at an index of the stored graph.
    pub fn node_at(&self, at: usize) -> (id: usize)
        requires
            self.wf(),
            at < graph_nodes(self.features).len(),
        ensures
            id == graph_nodes(self.features)[at as int],
            id < self.nodes@.len(),
            id < self.platforms@.len(),
            self.has_node(id as int),
    {
        proof {
            reveal(FeatGraph2::wf);
            reveal(FeatGraph2::tables_wf);
        }
        graph_node_weight(&self.features, at)
    }

    /// Removes every node that was found to be active on no requested
    /// platform, with the edges that touch it. Nodes for which no platforms
    /// were computed stay.
    pub fn trim_unused_platforms(&mut self)
        requires
            old(self).wf(),
        ensures
            final(self).wf(),
            final(self).cut_from(old(self)),
            forall|id: int| #[trigger]
                final(self).has_node(id) <==> old(self).has_node(id) && !old(self).starved(id),
            final(self).shape() == old(self).shape().restricted(fed(old(self).platform_views())),
    {
        proof {
            self.lemma_cut_refl();
        }
        let mut idx = graph_node_count(&self.features);
        while idx > 0
            invariant
                self.wf(),
                self.cut_from(old(self)),
                idx <= graph_nodes(self.features).len(),
                forall|k: int|
                    idx <= k < graph_nodes(self.features).len() ==> !self.starved(
                        #[trigger] graph_nodes(self.features)[k] as int,
                    ),
                forall|id: int|
                    old(self).has_node(id) && !old(self).starved(id) ==> #[trigger] self.has_node(id),
            decreases idx,
        {
            idx -= 1;
            let id = self.node_at(idx);
            let starved = match &self.platforms[id] {
                Some(list) => list.len() == 0,
                None => false,
            };
            if starved {
                let ghost before = *self;
                self.remove_at(idx);
                proof {
                    assert forall|s: int, t: int, l: int| #[trigger]
                        self.connects(s, t, l) <==> old(self).connects(s, t, l) && self.has_node(s)
                            && self.has_node(t) by {
                        assert(before.connects(s, t, l) <==> old(self).connects(s, t, l)
                            && before.has_node(s) && before.has_node(t));
                    }
                    assert forall|id2: int| #[trigger] self.has_node(id2) implies old(self).has_node(
                        id2,
                    ) by {
                        assert(before.has_node(id2));
                    }
                    assert forall|id2: int|
                        old(self).has_node(id2) && !old(self).starved(id2) implies #[trigger] self.has_node(
                        id2,
                    ) by {
                        assert(before.has_node(id2));
                    }
                }
            }
        }
        proof {
            assert forall|id: int| #[trigger] self.has_node(id) implies !old(self).starved(id) by {
                let k = choose|k: int|
                    0 <= k < graph_nodes(self.features).len() && graph_nodes(self.features)[k] == id;
                assert(!self.starved(graph_nodes(self.features)[k] as int));
            }
            old(self).lemma_cut_refl();
            let want = old(self).shape().restricted(fed(old(self).platform_views()));
            assert(self.shape().nodes =~= want.nodes);
            assert(self.shape().edges =~= want.edges);
        }
    }

    /// A node at an index that no stored edge leads to has no edge leading
    /// to it.
    pub proof fn lemma_source_is_entry(&self, at: int)
        requires
            self.wf(),
            0 <= at < graph_nodes(self.features).len(),
            is_source(graph_edges(self.features), at),
        ensures
            self.is_entry(graph_nodes(self.features)[at] as int),
    {
        reveal(FeatGraph2::wf);
        let gn = graph_nodes(self.features);
        let ge = graph_edges(self.features);
        assert forall|s: int, l: int| !self.connects(s, gn[at] as int, l) by {
            if self.connects(s, gn[at] as int, l) {
                let e = choose|e: int|
                    0 <= e < ge.len() && gn[(#[trigger] ge[e]).0 as int] == s && gn[ge[e].1 as int]
                        == gn[at] && ge[e].2 == l;
                assert(ge[e].1 < gn.len());
                if ge[e].1 < at {
                    assert(gn[ge[e].1 as int] != gn[at]);
                } else if at < ge[e].1 {
                    assert(gn[at] != gn[ge[e].1 as int]);
                }
            }
        }
    }

    /// A node that no edge leads to stands at an index that no stored edge
    /// leads to.
    pub proof fn lemma_entry_is_source(&self, at: int)
        requires
            self.wf(),
            0 <= at < graph_nodes(self.features).len(),
            self.is_entry(graph_nodes(self.features)[at] as int),
        ensures
            is_source(graph_edges(self.features), at),
    {
        reveal(FeatGraph2::wf);
        let gn = graph_nodes(self.features);
        let ge = graph_edges(self.features);
        assert forall|e: int| 0 <= e < ge.len() implies (#[trigger] ge[e]).1 != at by {
            if ge[e].1 == at {
                assert(self.connects(gn[ge[e].0 as int] as int, gn[at] as int, ge[e].2 as int));
            }
        }
    }

    /// An external feature that no edge leads to, in what is left of a graph
    /// whose removed nodes were not required, is not required.
    pub proof fn lemma_entry_not_required(&self, before: &FeatGraph2<'a>, id: int)
        requires
            self.cut_from(before),
            forall|x: int| before.has_node(x) && !self.has_node(x) ==> !#[trigger] before.required(x),
            self.has_node(id),
            self.is_external(id),
            self.is_entry(id),
        ensures
            !before.required(id),
    {
        if before.required(id) {
            let kept = choose|kept: Set<int>| before.closed(kept) && kept.contains(id);
            assert(kept.contains(id));
            let (s, l) = choose|s: int, l: int| kept.contains(s) && before.connects(s, id, l);
            assert(before.required(s));
            assert(before.has_node(s));
            assert(self.has_node(s));
            assert(self.connects(s, id, l));
        }
    }

    /// Where every external feature that is left has an edge leading to it,
    /// every node that is left is required.
    pub proof fn lemma_left_is_required(&self, before: &FeatGraph2<'a>)
        requires
            self.cut_from(before),
            forall|id: int| self.has_node(id) && self.is_external(id) ==> !#[trigger] self.is_entry(id),
        ensures
            forall|id: int| self.has_node(id) ==> #[trigger] before.required(id),
    {
        let kept = Set::new(|id: int| self.has_node(id));
        let shape = before.shape();
        assert forall|id: int| #[trigger] kept.contains(id) implies shape.nodes.contains(id) && (
        before.externals().contains(id) ==> exists|s: int, l: int|
            kept.contains(s) && shape.edges.contains((s, id, l))) by {
            assert(before.has_node(id));
            if before.is_external(id) {
                assert(!self.is_entry(id));
                let (s, l) = choose|s: int, l: int| self.connects(s, id, l);
                assert(kept.contains(s) && before.connects(s, id, l));
                assert(shape.edges.contains((s, id, l)));
            }
        }
        assert(before.closed(kept));
        assert forall|id: int| self.has_node(id) implies #[trigger] before.required(id) by {
            assert(kept.contains(id));
        }
    }

    /// Removes every external feature that nothing requires any more, over
    /// and over, until every external feature that is left has an edge leading
    /// to it. The root and the features of workspace members stay.
    pub fn trim_unused_features(&mut self)
        requires
            old(self).wf(),
        ensures
            final(self).wf(),
            final(self).cut_from(old(self)),
            forall|id: int| #[trigger] final(self).has_node(id) <==> old(self).required(id),
            forall|id: int|
                final(self).has_node(id) && final(self).is_external(id) ==> !#[trigger] final(self).is_entry(id),
            final(self).shape() == old(self).shape().restricted(
                old(self).shape().required(old(self).externals()),
            ),
    {
        proof {
            self.lemma_cut_refl();
        }
        let mut again = true;
        while again
            invariant
                self.wf(),
                self.cut_from(old(self)),
                forall|x: int|
                    old(self).has_node(x) && !self.has_node(x) ==> !#[trigger] old(self).required(x),
                !again ==> forall|id: int|
                    self.has_node(id) && self.is_external(id) ==> !#[trigger] self.is_entry(id),
            decreases
                    graph_nodes(self.features).len() + if again {
                        1int
                    } else {
                        0int
                    },
        {
            let sources = graph_sources(&self.features);
            let count = graph_node_count(&self.features);
            let ghost start = *self;
            let ghost start_gn = graph_nodes(self.features);
            let mut removed = false;
            let mut k = sources.len();
            proof {
                assert forall|j: int| 0 <= j < sources@.len() implies self.is_entry(
                    start_gn[#[trigger] sources@[j] as int] as int,
                ) by {
                    assert(sources@.contains(sources@[j]));
                    self.lemma_source_is_entry(sources@[j] as int);
                }
            }
            while k > 0
                invariant
                    self.wf(),
                    self.cut_from(old(self)),
                    start.wf(),
                    start_gn == graph_nodes(start.features),
                    start_gn.len() == count,
                    forall|a: usize|
                        a < start_gn.len() ==> (sources@.contains(a) <==> #[trigger] is_source(
                            graph_edges(start.features),
                            a as int,
                        )),
                    forall|x: int|
                        old(self).has_node(x) && !self.has_node(x) ==> !#[trigger] old(self).required(
                            x,
                        ),
                    k <= sources@.len(),
                    forall|i: int, j: int|
                        0 <= i < j < sources@.len() ==> #[trigger] sources@[i] < #[trigger] sources@[j],
                    forall|j: int| 0 <= j < sources@.len() ==> #[trigger] sources@[j] < start_gn.len(),
                    forall|j: int|
                        0 <= j < k ==> #[trigger] sources@[j] < graph_nodes(self.features).len()
                            && graph_nodes(self.features)[sources@[j] as int]
                            == start_gn[sources@[j] as int],
                    forall|j: int|
                        0 <= j < sources@.len() ==> self.is_entry(
                            start_gn[#[trigger] sources@[j] as int] as int,
                        ),
                    graph_nodes(self.features).len() <= start_gn.len(),
                    removed ==> graph_nodes(self.features).len() < start_gn.len(),
                    !removed ==> *self == start,
                    !removed ==> forall|j: int|
                        k <= j < sources@.len() ==> !self.is_external(
                            start_gn[#[trigger] sources@[j] as int] as int,
                        ),
                decreases k,
            {
                k -= 1;
                let at = sources[k];
                let id = self.node_at(at);
                let external = match self.nodes[id] {
                    Feature::External(_) => true,
                    _ => false,
                };
                if external {
                    let ghost before = *self;
                    proof {
                        self.lemma_entry_not_required(old(self), id as int);
                    }
                    self.remove_at(at);
                    removed = true;
                    proof {
                        assert forall|s: int, t: int, l: int| #[trigger]
                            self.connects(s, t, l) <==> old(self).connects(s, t, l) && self.has_node(
                                s,
                            ) && self.has_node(t) by {
                            assert(before.connects(s, t, l) <==> old(self).connects(s, t, l)
                                && before.has_node(s) && before.has_node(t));
                        }
                        assert forall|x: int| #[trigger] self.has_node(x) implies old(self).has_node(
                            x,
                        ) by {
                            assert(before.has_node(x));
                        }
                        assert forall|x: int|
                            old(self).has_node(x) && !self.has_node(x) implies !#[trigger] old(self).required(x) by {
                            if before.has_node(x) {
                                assert(x == id);
                            }
                        }
                        assert forall|j: int| 0 <= j < sources@.len() implies self.is_entry(
                            start_gn[#[trigger] sources@[j] as int] as int,
                        ) by {
                            let y = start_gn[sources@[j] as int] as int;
                            assert(before.is_entry(y));
                            assert forall|s: int, l: int| !self.connects(s, y, l) by {
                                assert(!before.connects(s, y, l));
                            }
                        }
                        assert forall|j: int| 0 <= j < k implies #[trigger] sources@[j] < graph_nodes(
                            self.features,
                        ).len() && graph_nodes(self.features)[sources@[j] as int]
                            == start_gn[sources@[j] as int] by {
                            assert(sources@[j] < sources@[k as int]);
                        }
                    }
                }
            }
            proof {
                if !removed {
                    assert forall|id: int|
                        self.has_node(id) && self.is_external(id) implies !#[trigger] self.is_entry(
                        id,
                    ) by {
                        if self.is_entry(id) {
                            let p = choose|p: int| 0 <= p < start_gn.len() && start_gn[p] == id;
                            self.lemma_entry_is_source(p);
                            assert(sources@.contains(p as usize));
                            let j = choose|j: int| 0 <= j < sources@.len() && sources@[j] == p as usize;
                            assert(!self.is_external(start_gn[sources@[j] as int] as int));
                        }
                    }
                }
            }
            again = removed;
        }
        proof {
            self.lemma_left_is_required(old(self));
            assert forall|id: int| old(self).required(id) implies #[trigger] self.has_node(id) by {
                let kept = choose|kept: Set<int>| old(self).closed(kept) && kept.contains(id);
                assert(kept.contains(id));
                assert(old(self).has_node(id));
            }
            old(self).lemma_cut_refl();
            let need = old(self).shape().required(old(self).externals());
            let want = old(self).shape().restricted(need);
            assert forall|id: int| self.shape().nodes.contains(id) <==> want.nodes.contains(id) by {
                assert(self.has_node(id) <==> old(self).required(id));
                assert(need.contains(id) <==> old(self).required(id));
                if old(self).required(id) {
                    assert(self.has_node(id));
                    assert(old(self).has_node(id));
                }
            }
            assert forall|e: (int, int, int)| self.shape().edges.contains(e) <==> want.edges.contains(
                e,
            ) by {
                assert(self.connects(e.0, e.1, e.2) <==> old(self).connects(e.0, e.1, e.2)
                    && self.has_node(e.0) && self.has_node(e.1));
                assert(self.has_node(e.0) <==> old(self).required(e.0));
                assert(self.has_node(e.1) <==> old(self).required(e.1));
                assert(need.contains(e.0) <==> old(self).required(e.0));
                assert(need.contains(e.1) <==> old(self).required(e.1));
            }
            assert(self.shape().nodes =~= want.nodes);
            assert(self.shape().edges =~= want.edges);
        }
    }

    /// An external feature that has an edge leading to it still has one after
    /// the edges with a detour were dropped.
    pub proof fn lemma_still_required(&self, after: &FeatGraph2<'a>, id: int)
        requires
            acyclic(self.arrows()),
            !self.is_entry(id),
            forall|a: int, b: int|
                reaches(self.arrows(), a, b) <==> #[trigger] reaches(after.arrows(), a, b),
        ensures
            !after.is_entry(id),
    {
        let (s, l) = choose|s: int, l: int| self.connects(s, id, l);
        let before = self.arrows();
        assert(before(s, id));
        crate::reach::lemma_edge_reaches(before, s, id);
        if s == id {
            let cycle = seq![id, id];
            assert(crate::reach::walk_between(before, cycle, id, id) && cycle.len() >= 2);
            assert(crate::reach::on_cycle(before, id));
        }
        let left = after.arrows();
        assert(reaches(left, s, id));
        let p = choose|p: Seq<int>| crate::reach::walk_between(left, p, s, id);
        assert(p.len() >= 2);
        let from = p[p.len() - 2];
        assert(left(p[p.len() - 2], p[p.len() - 2 + 1]));
        let gn = graph_nodes(after.features);
        let ge = graph_edges(after.features);
        assert(seq_arrows(gn, ge)(from, id));
        assert(exists|l2: int| seq_connects(gn, ge, from, id, l2));
        let l2 = choose|l2: int| seq_connects(gn, ge, from, id, l2);
        assert(after.connects(from, id, l2));
    }

    /// Cuts the graph down in three steps: the nodes that are active on no
    /// requested platform go, then the external features that nothing
    /// requires any more, then the edges that a detour makes unnecessary. A
    /// graph that still has a cycle after the first two steps is reported.
    pub fn optimize(&mut self) -> (r: Result<(), GraphError>)
        requires
            old(self).wf(),
        ensures
            final(self).same_tables(old(self)),
            match r {
                Ok(_) => {
                    &&& final(self).wf()
                    &&& acyclic(
                        pruned(old(self).shape(), old(self).externals(), old(self).platform_views()).arrows(),
                    )
                    &&& final(self).shape() == pruned(
                        old(self).shape(),
                        old(self).externals(),
                        old(self).platform_views(),
                    ).reduced()
                    &&& acyclic(final(self).shape().arrows())
                    &&& forall|a: int, b: int|
                        reaches(
                            pruned(
                                old(self).shape(),
                                old(self).externals(),
                                old(self).platform_views(),
                            ).arrows(),
                            a,
                            b,
                        ) <==> #[trigger] reaches(final(self).shape().arrows(), a, b)
                    &&& forall|id: int| #[trigger] final(self).has_node(id) ==> !final(self).starved(id)
                    &&& forall|id: int|
                        final(self).has_node(id) && final(self).is_external(id) ==> !#[trigger] final(self).is_entry(id)
                },
                Err(e) => {
                    &&& e == GraphError::CyclicFeatureGraph
                    &&& !acyclic(
                        pruned(old(self).shape(), old(self).externals(), old(self).platform_views()).arrows(),
                    )
                },
            },
    {
        self.trim_unused_platforms();
        let ghost first = *self;
        self.trim_unused_features();
        let ghost second = *self;
        proof {
            assert(first.externals() =~= old(self).externals());
            assert(first.platform_views() =~= old(self).platform_views());
            assert(second.platform_views() =~= old(self).platform_views());
        }
        match self.transitive_reduction() {
            Ok(_) => {
                proof {
                    assert(self.platform_views() =~= old(self).platform_views());
                    assert forall|id: int| #[trigger] self.has_node(id) implies !self.starved(id) by {
                        assert(second.has_node(id));
                        assert(first.has_node(id));
                    }
                    assert forall|id: int| self.has_node(id) && self.is_external(id) implies !#[trigger] self.is_entry(
                        id,
                    ) by {
                        second.lemma_still_required(self, id);
                    }
                }
                Ok(())
            },
            Err(e) => Err(e),
        }
    }
}

/// What the first two steps of cutting down leave of a shape: first the nodes
/// go that are active on no requested platform, then the nodes that are not
/// required any more.
pub open spec fn pruned(shape: Shape, external: Set<int>, platforms: Seq<Option<Seq<&str>>>) -> Shape {
    let first = shape.restricted(fed(platforms));
    first.restricted(first.required(external))
}

} // verus!
