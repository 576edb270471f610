//! From a snapshot and a list of platforms to the finished feature graph.

use crate::error::GraphError;
use crate::feat_graph::FeatGraph2;
use crate::ident::FeatureView;
use crate::ident::LinkView;
use crate::metadata::Metadata;
use crate::model::add_packages;
use crate::model::build;
use crate::model::lemma_packages_sticky;
use crate::model::Model;
use crate::optimize::pruned;
use crate::propagate::propagate;
use crate::reach::acyclic;
use crate::reach::reaches;
use crate::shape::Shape;
use crate::store::graph_edges;
use crate::store::graph_nodes;
use vstd::prelude::*;

verus! {

/// A finished feature graph as a plain value: the feature of every node that
/// was ever created and the link of every edge that was ever added, each by
/// its identifier; the platforms computed for the nodes; and the nodes and
/// edges that are left.
pub struct Finished<'a> {
    pub nodes: Seq<FeatureView>,
    pub links: Seq<LinkView>,
    pub platforms: Seq<Option<Seq<&'a str>>>,
    pub shape: Shape,
}

impl Model {
    /// The nodes and edges of a graph from which nothing was removed. The
    /// link of an edge has the number of the edge for its identifier.
    pub open spec fn shape(self) -> Shape {
        Shape {
            nodes: Set::new(|id: int| 0 <= id < self.nodes.len()),
            edges: Set::new(
                |e: (int, int, int)|
                    0 <= e.2 < self.edges.len() && self.edges[e.2].source == e.0 && self.edges[e.2].target
                        == e.1,
            ),
        }
    }

    /// The nodes that are external features.
    pub open spec fn externals(self) -> Set<int> {
        Set::new(|id: int| 0 <= id < self.nodes.len() && self.nodes[id] is External)
    }

    /// The links of the edges, by identifier.
    pub open spec fn links(self) -> Seq<LinkView> {
        Seq::new(self.edges.len(), |e: int| self.edges[e].link)
    }
}

/// What a snapshot and a list of requested platforms lead to: the finished
/// graph, or the reason why there is none. The graph is built, platforms are
/// handed down from the root, nodes without platforms and external features
/// that nothing requires are removed, and what is left is reduced to the
/// edges without a detour, unless it has a cycle.
pub open spec fn outcome<'a>(meta: &Metadata, platforms: Seq<&'a str>) -> Result<
    Finished<'a>,
    GraphError,
> {
    match build(meta) {
        Err(e) => Err(e),
        Ok(m) => match propagate(m, platforms) {
            None => Err(GraphError::Unevaluated),
            Some(reached) => {
                let left = pruned(m.shape(), m.externals(), reached);
                if acyclic(left.arrows()) {
                    Ok(
                        Finished {
                            nodes: m.nodes,
                            links: m.links(),
                            platforms: reached,
                            shape: left.reduced(),
                        },
                    )
                } else {
                    Err(GraphError::CyclicFeatureGraph)
                }
            },
        },
    }
}

/// The shape of the graph of a snapshot before it is reduced: what is reached
/// on the requested platforms and required.
pub open spec fn unreduced(meta: &Metadata, platforms: Seq<&str>) -> Shape {
    let m = build(meta)->Ok_0;
    pruned(m.shape(), m.externals(), propagate(m, platforms)->0)
}

impl<'a> FeatGraph2<'a> {
    /// The links as plain values, by identifier.
    pub open spec fn link_views(&self) -> Seq<LinkView> {
        Seq::new(self.links@.len(), |i: int| self.links@[i]@)
    }

    /// The graph as a plain value.
    pub open spec fn finished(&self) -> Finished<'a> {
        Finished {
            nodes: self.node_views(),
            links: self.link_views(),
            platforms: self.platform_views(),
            shape: self.shape(),
        }
    }

    /// A graph from which nothing was removed has the shape of its model.
    pub proof fn lemma_fresh_shape(&self)
        requires
            self.fresh(),
        ensures
            self.shape() == self.model().shape(),
            self.externals() == self.model().externals(),
            self.link_views() == self.model().links(),
    {
        reveal(FeatGraph2::fresh);
        reveal(FeatGraph2::tables_wf);
        let gn = graph_nodes(self.features);
        let ge = graph_edges(self.features);
        let m = self.model();
        self.lemma_fresh_is_wf();
        assert forall|e: (int, int, int)| self.shape().edges.contains(e) <==> m.shape().edges.contains(
            e,
        ) by {
            if self.connects(e.0, e.1, e.2) {
                let k = choose|k: int|
                    0 <= k < ge.len() && gn[(#[trigger] ge[k]).0 as int] == e.0 && gn[ge[k].1 as int] == e.1
                        && ge[k].2 == e.2;
                assert(ge[k].0 < gn.len() && ge[k].1 < gn.len() && ge[k].2 == k);
            }
            if m.shape().edges.contains(e) {
                let k = e.2;
                assert(ge[k].0 < gn.len() && ge[k].1 < gn.len() && ge[k].2 == k);
                assert(gn[ge[k].0 as int] == e.0 && gn[ge[k].1 as int] == e.1);
            }
        }
        assert(self.shape().edges =~= m.shape().edges);
        assert(self.shape().nodes =~= m.shape().nodes);
        assert(self.externals() =~= m.externals());
        assert(self.link_views() =~= m.links());
    }

    /// Builds the feature graph of a snapshot for a list of requested
    /// platforms: constructs it package by package, hands the platforms down
    /// from the root, and cuts it down to what is reached and required.
    pub fn init(meta: &'a Metadata, platforms: Vec<&'a str>) -> (r: Result<FeatGraph2<'a>, GraphError>)
        ensures
            match r {
                Ok(g) => {
                    &&& g.wf()
                    &&& g.meta == meta
                    &&& outcome(meta, platforms@) == Ok::<Finished<'a>, GraphError>(g.finished())
                    &&& acyclic(g.shape().arrows())
                    &&& forall|id: int| #[trigger] g.has_node(id) ==> !g.starved(id)
                    &&& forall|id: int| g.has_node(id) && g.is_external(id) ==> !#[trigger] g.is_entry(id)
                    &&& forall|a: int, b: int|
                        reaches(unreduced(meta, platforms@).arrows(), a, b) <==> #[trigger] reaches(
                            g.shape().arrows(),
                            a,
                            b,
                        )
                },
                Err(e) => outcome(meta, platforms@) == Err::<Finished<'a>, GraphError>(e),
            },
    {
        let resolves = match &meta.resolve {
            Some(nodes) => nodes,
            None => {
                return Err(GraphError::MissingResolveData);
            },
        };
        if resolves.len() != meta.packages.len() {
            return Err(GraphError::IdentityMismatch);
        }
        let mut graph = FeatGraph2::new(meta);
        let count = meta.packages.len();
        let mut ix: usize = 0;
        while ix < count
            invariant
                graph.building(),
                graph.meta == meta,
                meta.resolve == Some(*resolves),
                resolves@.len() == meta.packages@.len(),
                count == meta.packages@.len(),
                ix <= count,
                add_packages(Model::initial(), meta, ix as int) == Ok::<Model, GraphError>(graph.model()),
            decreases count - ix,
        {
            if !crate::names::str_eq(meta.packages[ix].id.as_str(), resolves[ix].id.as_str()) {
                proof {
                    lemma_packages_sticky(Model::initial(), meta, ix + 1, count as int);
                }
                return Err(GraphError::IdentityMismatch);
            }
            match graph.add_package(ix) {
                Ok(_) => {},
                Err(e) => {
                    proof {
                        lemma_packages_sticky(Model::initial(), meta, ix + 1, count as int);
                    }
                    return Err(e);
                },
            }
            ix += 1;
        }
        let ghost m = graph.model();
        match graph.fill_in_platforms(platforms) {
            Ok(_) => {},
            Err(e) => {
                return Err(e);
            },
        }
        proof {
            graph.lemma_fresh_shape();
            graph.lemma_fresh_is_wf();
        }
        let ghost filled = graph;
        match graph.optimize() {
            Ok(_) => {
                proof {
                    assert(graph.node_views() =~= filled.node_views());
                    assert(graph.link_views() =~= filled.link_views());
                    assert(graph.platform_views() =~= filled.platform_views());
                }
                Ok(graph)
            },
            Err(e) => Err(e),
        }
    }
}

/// Building is a function of the snapshot and the platforms: two graphs built
/// from the same snapshot for the same platforms have the same nodes, the
/// same links, the same platforms and the same edges.
pub proof fn lemma_init_is_deterministic<'a>(
    meta: &Metadata,
    platforms: Seq<&'a str>,
    one: Finished<'a>,
    other: Finished<'a>,
)
    requires
        outcome(meta, platforms) == Ok::<Finished<'a>, GraphError>(one),
        outcome(meta, platforms) == Ok::<Finished<'a>, GraphError>(other),
    ensures
        one == other,
{
}

} // verus!
