//! The feature graph and how it is built from a snapshot.

use crate::error::GraphError;
use crate::ident::Feature;
use crate::ident::FeatureView;
use crate::ident::Fid;
use crate::ident::Link;
use crate::metadata::Metadata;
use crate::model::limit;
use crate::model::EdgeView;
use crate::model::Model;
use crate::store::graph_add_node;
use crate::store::graph_edges;
use crate::store::graph_new;
use crate::store::graph_nodes;
use crate::store::graph_out;
use petgraph::graph::Graph;
use vstd::prelude::*;

verus! {

/// A feature graph over one snapshot.
///
/// Every node has an identifier, its place in `nodes`, which it keeps for
/// good. `features` holds the shape of the graph: its nodes carry node
/// identifiers and its edges link identifiers, the places of the edges' links
/// in `links`. A node that was removed from the graph keeps its place in
/// `nodes`; it is marked in `alive`.
pub struct FeatGraph2<'a> {
    /// For each package, whether it is a member of the workspace.
    pub workspace_members: Vec<bool>,
    /// The nodes and edges that the graph has at present.
    pub features: Graph<usize, usize>,
    /// For each package, the identifiers of the nodes of its features.
    pub fids: Vec<Vec<usize>>,
    /// For each node, the requested platforms on which it can be active, once
    /// they were computed for it.
    pub platforms: Vec<Option<Vec<&'a str>>>,
    /// The snapshot that the graph is built from.
    pub meta: &'a Metadata,
    /// The identifier of the root.
    pub root: usize,
    /// For each package, whether its library target goes by another name than
    /// the package.
    pub library_renames: Vec<bool>,
    /// The feature of every node that was ever created, by identifier.
    pub nodes: Vec<Feature<'a>>,
    /// The link of every edge that was ever added, by identifier.
    pub links: Vec<Link<'a>>,
    /// For each node that was ever created, whether the graph still has it.
    pub alive: Vec<bool>,
}

/// The edges that leave `a`, latest first.
pub open spec fn out_of(edges: Seq<(usize, usize, usize)>, a: int) -> Seq<usize>
    decreases edges.len(),
{
    if edges.len() == 0 {
        Seq::empty()
    } else if edges.last().0 == a {
        seq![(edges.len() - 1) as usize] + out_of(edges.drop_last(), a)
    } else {
        out_of(edges.drop_last(), a)
    }
}

impl<'a> FeatGraph2<'a> {
    /// The nodes as plain values, by identifier.
    pub open spec fn node_views(&self) -> Seq<FeatureView> {
        Seq::new(self.nodes@.len(), |i: int| self.nodes@[i]@)
    }

    /// The graph as a plain value, while it is being built: then the edges
    /// stand in the order in which they were added.
    pub open spec fn model(&self) -> Model {
        Model {
            nodes: self.node_views(),
            edges: Seq::new(
                graph_edges(self.features).len(),
                |e: int|
                    EdgeView {
                        source: graph_edges(self.features)[e].0 as int,
                        target: graph_edges(self.features)[e].1 as int,
                        link: self.links@[e]@,
                    },
            ),
        }
    }

    /// What holds of the tables at all times.
    #[verifier::opaque]
    pub open spec fn tables_wf(&self) -> bool {
        let packages = self.meta.packages@.len();
        let n = self.nodes@.len();
        &&& self.workspace_members@.len() == packages
        &&& self.library_renames@.len() == packages
        &&& self.fids@.len() == packages
        &&& forall|p: int|
            0 <= p < packages ==> #[trigger] self.workspace_members@[p] == self.meta.spec_is_member(p)
        &&& forall|p: int|
            0 <= p < packages ==> #[trigger] self.library_renames@[p]
                == self.meta.packages@[p].spec_lib_renamed()
        &&& self.alive@.len() == n
        &&& self.platforms@.len() == n
        &&& n <= limit()
        &&& self.root == 0
        &&& self.model().distinct()
        &&& forall|i: int|
            1 <= i < n ==> match #[trigger] self.nodes@[i] {
                Feature::Root => false,
                Feature::Workspace(f) => f.0.meta() == self.meta && f.0.index() < packages
                    && self.meta.spec_is_member(f.0.index() as int),
                Feature::External(f) => f.0.meta() == self.meta && f.0.index() < packages
                    && !self.meta.spec_is_member(f.0.index() as int),
            }
        &&& forall|p: int, k: int|
            0 <= p < packages && 0 <= k < self.fids@[p]@.len() ==> 1 <= #[trigger] self.fids@[p]@[k] < n
                && self.node_views()[self.fids@[p]@[k] as int].fid()->0.pkg == p
        &&& forall|i: int|
            1 <= i < n ==> self.fids@[(#[trigger] self.node_views()[i]).fid()->0.pkg]@.contains(i as usize)
    }

    /// What holds as long as nothing was removed: each node of the stored
    /// graph carries its own index, each edge carries its own index, and the
    /// edges that leave a node are handed out latest first.
    #[verifier::opaque]
    pub open spec fn fresh(&self) -> bool {
        let n = self.nodes@.len();
        let edges = graph_edges(self.features);
        &&& self.tables_wf()
        &&& graph_nodes(self.features) == Seq::new(n, |i: int| i as usize)
        &&& edges.len() == self.links@.len()
        &&& edges.len() <= limit()
        &&& forall|e: int|
            0 <= e < edges.len() ==> (#[trigger] edges[e]).0 < n && edges[e].1 < n && edges[e].2 == e
        &&& forall|a: int| #[trigger] graph_out(self.features, a) == out_of(edges, a)
        &&& forall|i: int| 0 <= i < n ==> #[trigger] self.alive@[i]
    }

    /// What holds while the graph is being built: nothing was removed, and no
    /// platforms were computed.
    #[verifier::opaque]
    pub open spec fn building(&self) -> bool {
        &&& self.fresh()
        &&& forall|i: int| 0 <= i < self.nodes@.len() ==> #[trigger] self.platforms@[i] is None
    }

    /// The platforms of the nodes as plain values, by node identifier.
    pub open spec fn platform_views(&self) -> Seq<Option<Seq<&'a str>>> {
        Seq::new(
            self.platforms@.len(),
            |i: int|
                match self.platforms@[i] {
                    Some(list) => Some(list@),
                    None => None,
                },
        )
    }

    /// The graph that holds the root and nothing else.
    pub fn new(meta: &'a Metadata) -> (g: FeatGraph2<'a>)
        ensures
            g.building(),
            g.meta == meta,
            g.model() == Model::initial(),
    {
        let mut workspace_members: Vec<bool> = Vec::new();
        let mut library_renames: Vec<bool> = Vec::new();
        let mut fids: Vec<Vec<usize>> = Vec::new();
        let mut p: usize = 0;
        while p < meta.packages.len()
            invariant
                p <= meta.packages@.len(),
                workspace_members@.len() == p,
                library_renames@.len() == p,
                fids@.len() == p,
                forall|q: int| 0 <= q < p ==> !#[trigger] workspace_members@[q],
                forall|q: int|
                    0 <= q < p ==> #[trigger] library_renames@[q]
                        == meta.packages@[q].spec_lib_renamed(),
                forall|q: int| 0 <= q < p ==> (#[trigger] fids@[q])@.len() == 0,
            decreases meta.packages@.len() - p,
        {
            workspace_members.push(false);
            library_renames.push(meta.packages[p].lib_renamed());
            fids.push(Vec::new());
            p += 1;
        }
        let mut i: usize = 0;
        while i < meta.workspace_members.len()
            invariant
                i <= meta.workspace_members@.len(),
                workspace_members@.len() == meta.packages@.len(),
                forall|q: int|
                    0 <= q < meta.packages@.len() ==> (#[trigger] workspace_members@[q] <==> exists|
                        k: int,
                    |
                        0 <= k < i && meta.spec_package_index(
                            (#[trigger] meta.workspace_members@[k])@,
                        ) == Some(q)),
            decreases meta.workspace_members@.len() - i,
        {
            let ghost before = workspace_members@;
            match meta.package_index(meta.workspace_members[i].as_str()) {
                Some(q) => {
                    workspace_members[q] = true;
                },
                None => {},
            }
            proof {
                assert forall|q: int| 0 <= q < meta.packages@.len() implies (
                #[trigger] workspace_members@[q] <==> exists|k: int|
                    0 <= k < i + 1 && meta.spec_package_index(
                        (#[trigger] meta.workspace_members@[k])@,
                    ) == Some(q)) by {
                    if workspace_members@[q] {
                        if before[q] {
                            let k = choose|k: int|
                                0 <= k < i && meta.spec_package_index(
                                    (#[trigger] meta.workspace_members@[k])@,
                                ) == Some(q);
                            assert(0 <= k < i + 1);
                        } else {
                            assert(meta.spec_package_index(meta.workspace_members@[i as int]@)
                                == Some(q));
                        }
                    }
                    if exists|k: int|
                        0 <= k < i + 1 && meta.spec_package_index(
                            (#[trigger] meta.workspace_members@[k])@,
                        ) == Some(q) {
                        let k = choose|k: int|
                            0 <= k < i + 1 && meta.spec_package_index(
                                (#[trigger] meta.workspace_members@[k])@,
                            ) == Some(q);
                        if k < i {
                            assert(before[q]);
                        }
                    }
                }
            }
            i += 1;
        }
        let mut features = graph_new();
        let root = graph_add_node(&mut features, 0);
        let mut nodes: Vec<Feature<'a>> = Vec::new();
        nodes.push(Feature::Root);
        let mut alive: Vec<bool> = Vec::new();
        alive.push(true);
        let mut platforms: Vec<Option<Vec<&'a str>>> = Vec::new();
        platforms.push(None);
        let g = FeatGraph2 {
            workspace_members,
            features,
            fids,
            platforms,
            meta,
            root,
            library_renames,
            nodes,
            links: Vec::new(),
            alive,
        };
        proof {
            reveal(FeatGraph2::tables_wf);
            reveal(FeatGraph2::building);
            reveal(FeatGraph2::fresh);
            assert(g.node_views() =~= seq![FeatureView::Root]);
            assert(g.model().edges =~= Seq::empty());
            assert(graph_nodes(g.features) =~= Seq::new(1, |i: int| i as usize));
            assert forall|q: int| 0 <= q < meta.packages@.len() implies #[trigger] g.workspace_members@[q]
                == meta.spec_is_member(q) by {
                if meta.spec_is_member(q) {
                    let k = choose|k: int|
                        0 <= k < meta.workspace_members@.len() && meta.spec_package_index(
                            (#[trigger] meta.workspace_members@[k])@,
                        ) == Some(q);
                    assert(0 <= k < i);
                }
            }
        }
        g
    }

    /// The node that stands for a feature of this graph's snapshot. The node is
    /// created the first time the feature is asked for: as a workspace node
    /// where the package is a member of the workspace, else as an external
    /// node.
    pub fn fid_index(&mut self, fid: Fid<'a>) -> (r: Result<usize, GraphError>)
        requires
            old(self).building(),
            fid.0.meta() == old(self).meta,
        ensures
            final(self).meta == old(self).meta,
            match r {
                Ok(ix) => {
                    &&& final(self).building()
                    &&& old(self).model().node(old(self).meta, fid@) == Ok::<Model, GraphError>(
                        final(self).model(),
                    )
                    &&& ix == final(self).model().index_of(fid@)
                    &&& final(self).model().has(fid@)
                    &&& ix < final(self).nodes@.len()
                },
                Err(e) => {
                    &&& old(self).model().node(old(self).meta, fid@) == Err::<Model, GraphError>(e)
                    &&& *final(self) == *old(self)
                },
            },
    {
        proof {
            reveal(FeatGraph2::tables_wf);
            reveal(FeatGraph2::building);
            reveal(FeatGraph2::fresh);
            reveal(Model::node);
        }
        let p = fid.0.position();
        let ghost m = self.model();
        let mut k: usize = 0;
        while k < self.fids[p].len()
            invariant
                *self == *old(self),
                self.building(),
                p == fid.0.index(),
                p < self.meta.packages@.len(),
                self.fids@.len() == self.meta.packages@.len(),
                m == self.model(),
                k <= self.fids@[p as int]@.len(),
                forall|j: int|
                    0 <= j < k ==> self.node_views()[#[trigger] self.fids@[p as int]@[j] as int].fid()
                        != Some(fid@),
            decreases self.fids@[p as int]@.len() - k,
        {
            proof {
                reveal(FeatGraph2::tables_wf);
                reveal(FeatGraph2::building);
            reveal(FeatGraph2::fresh);
            }
            let id = self.fids[p][k];
            let found = match self.nodes[id].fid() {
                Some(f) => f.same(&fid),
                None => false,
            };
            if found {
                proof {
                    reveal(Model::node);
                    assert(m.nodes[id as int].fid() == Some(fid@));
                    let w = m.index_of(fid@);
                    if w < id {
                        assert(m.nodes[w].fid() != m.nodes[id as int].fid());
                    } else if id < w {
                        assert(m.nodes[id as int].fid() != m.nodes[w].fid());
                    }
                }
                return Ok(id);
            }
            k += 1;
        }
        proof {
            if m.has(fid@) {
                let w = m.index_of(fid@);
                assert(m.nodes[w].fid() == Some(fid@));
                assert(w >= 1);
                assert(self.fids@[self.node_views()[w].fid()->0.pkg]@.contains(w as usize));
                let j = choose|j: int|
                    0 <= j < self.fids@[p as int]@.len() && self.fids@[p as int]@[j] == w as usize;
                assert(self.node_views()[self.fids@[p as int]@[j] as int].fid() != Some(fid@));
            }
        }
        if self.nodes.len() >= 0xffff_ffff {
            return Err(GraphError::TooLarge);
        }
        let id = self.nodes.len();
        let node = if self.workspace_members[p] {
            Feature::Workspace(fid)
        } else {
            Feature::External(fid)
        };
        let ghost old_out = self.features;
        let ix = graph_add_node(&mut self.features, id);
        self.nodes.push(node);
        self.alive.push(true);
        self.platforms.push(None);
        self.fids[p].push(id);
        proof {
            let m2 = self.model();
            assert(m2.nodes =~= m.nodes.push(node@));
            assert(m2.edges =~= m.edges);
            assert(graph_nodes(self.features) =~= Seq::new(self.nodes@.len(), |i: int| i as usize));
            assert(m2.nodes[id as int].fid() == Some(fid@));
            assert forall|i: int, j: int| 0 <= i < j < m2.nodes.len() implies (
            #[trigger] m2.nodes[i]).fid() != (#[trigger] m2.nodes[j]).fid() by {
                if j == id {
                    if i >= 1 {
                        assert(m.nodes[i].fid() != Some(fid@));
                    }
                } else {
                    assert(m.nodes[i].fid() != m.nodes[j].fid());
                }
            }
            assert forall|i: int| 1 <= i < self.nodes@.len() implies self.fids@[(
            #[trigger] self.node_views()[i]).fid()->0.pkg]@.contains(i as usize) by {
                if i == id {
                    assert(self.fids@[p as int]@[self.fids@[p as int]@.len() - 1] == id);
                } else {
                    let f = old(self).nodes@[i];
                    assert(f !is Root);
                    assert(self.nodes@[i] == f);
                    let q = old(self).node_views()[i].fid()->0.pkg;
                    assert(old(self).node_views()[i] == f@);
                    match f {
                        Feature::Root => {},
                        Feature::Workspace(ff) => {
                            assert(f@.fid() == Some(ff@));
                            assert(ff.0.index() < old(self).meta.packages@.len());
                        },
                        Feature::External(ff) => {
                            assert(f@.fid() == Some(ff@));
                            assert(ff.0.index() < old(self).meta.packages@.len());
                        },
                    }
                    assert(0 <= q < self.meta.packages@.len());
                    assert(old(self).fids@[q]@.contains(i as usize));
                    let j = choose|j: int|
                        0 <= j < old(self).fids@[q]@.len() && old(self).fids@[q]@[j] == i as usize;
                    assert(self.fids@[q]@[j] == i as usize);
                }
            }
            assert forall|q: int, j: int|
                0 <= q < self.meta.packages@.len() && 0 <= j < self.fids@[q]@.len() implies 1
                <= #[trigger] self.fids@[q]@[j] < self.nodes@.len() && self.node_views()[self.fids@[q]@[j] as int].fid()->0.pkg
                == q by {
                if q == p && j == self.fids@[q]@.len() - 1 {
                } else {
                    assert(old(self).fids@[q]@[j] == self.fids@[q]@[j]);
                }
            }
            let w = m2.index_of(fid@);
            if w < id {
                assert(m2.nodes[w].fid() != m2.nodes[id as int].fid());
            }
        }
        Ok(id)
    }
}

} // verus!
