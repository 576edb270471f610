//! Looking into a feature graph: its nodes, its edges, and what is known of
//! a node.

use crate::feat_graph::FeatGraph2;
use crate::ident::Feature;
use crate::ident::Fid;
use crate::ident::Link;
use crate::ident::Pid;
use crate::store::graph_edge_count;
use crate::store::graph_edge_endpoints;
use crate::store::graph_edge_weight;
use crate::store::graph_edges;
use crate::store::graph_node_count;
use crate::store::graph_node_weight;
use crate::store::graph_nodes;
use vstd::prelude::*;

verus! {

impl<'a> FeatGraph2<'a> {
    /// Whether the node with this identifier is in the graph.
    pub fn contains(&self, id: usize) -> (r: bool)
        requires
            self.wf(),
        ensures
            r == self.has_node(id as int),
    {
        proof {
            reveal(FeatGraph2::wf);
        }
        id < self.alive.len() && self.alive[id]
    }

    /// The identifiers of the nodes of the graph.
    pub fn node_ids(&self) -> (r: Vec<usize>)
        requires
            self.wf(),
        ensures
            r@ == graph_nodes(self.features),
            forall|id: int| self.has_node(id) <==> #[trigger] r@.contains(id as usize) && 0 <= id
                <= usize::MAX,
    {
        let count = graph_node_count(&self.features);
        let mut ids: Vec<usize> = Vec::new();
        let mut at: usize = 0;
        while at < count
            invariant
                count == graph_nodes(self.features).len(),
                at <= count,
                ids@ == graph_nodes(self.features).subrange(0, at as int),
            decreases count - at,
        {
            let id = graph_node_weight(&self.features, at);
            ids.push(id);
            proof {
                assert(graph_nodes(self.features).subrange(0, at + 1) =~= graph_nodes(
                    self.features,
                ).subrange(0, at as int).push(id));
            }
            at += 1;
        }
        proof {
            let gn = graph_nodes(self.features);
            assert(gn.subrange(0, count as int) =~= gn);
            assert forall|id: int| self.has_node(id) <==> #[trigger] ids@.contains(id as usize) && 0
                <= id <= usize::MAX by {
                if self.has_node(id) {
                    let k = choose|k: int| 0 <= k < gn.len() && gn[k] == id;
                    assert(ids@[k] == id as usize);
                }
                if ids@.contains(id as usize) && 0 <= id <= usize::MAX {
                    let k = choose|k: int| 0 <= k < ids@.len() && ids@[k] == id as usize;
                    assert(gn[k] == id);
                }
            }
        }
        ids
    }

    /// The edges of the graph: for each edge the identifier of its source, of
    /// its target and of its link.
    pub fn edges(&self) -> (r: Vec<(usize, usize, usize)>)
        requires
            self.wf(),
        ensures
            forall|s: int, t: int, l: int|
                self.connects(s, t, l) <==> exists|k: int|
                    0 <= k < r@.len() && (#[trigger] r@[k]).0 == s && r@[k].1 == t && r@[k].2 == l,
            forall|k: int|
                0 <= k < r@.len() ==> (#[trigger] r@[k]).0 < self.nodes@.len() && r@[k].1
                    < self.nodes@.len() && r@[k].2 < self.links@.len(),
    {
        proof {
            reveal(FeatGraph2::wf);
        }
        let count = graph_edge_count(&self.features);
        let ghost gn = graph_nodes(self.features);
        let ghost ge = graph_edges(self.features);
        let mut edges: Vec<(usize, usize, usize)> = Vec::new();
        let mut at: usize = 0;
        while at < count
            invariant
                self.wf(),
                gn == graph_nodes(self.features),
                ge == graph_edges(self.features),
                count == ge.len(),
                at <= count,
                edges@.len() == at,
                forall|k: int|
                    0 <= k < at ==> (#[trigger] edges@[k]).0 == gn[ge[k].0 as int] && edges@[k].1
                        == gn[ge[k].1 as int] && edges@[k].2 == ge[k].2,
                forall|k: int|
                    0 <= k < at ==> (#[trigger] edges@[k]).0 < self.nodes@.len() && edges@[k].1
                        < self.nodes@.len() && edges@[k].2 < self.links@.len(),
            decreases count - at,
        {
            proof {
                reveal(FeatGraph2::wf);
            }
            let (s, t) = graph_edge_endpoints(&self.features, at);
            let l = graph_edge_weight(&self.features, at);
            let source = graph_node_weight(&self.features, s);
            let target = graph_node_weight(&self.features, t);
            edges.push((source, target, l));
            at += 1;
        }
        proof {
            assert forall|s: int, t: int, l: int|
                self.connects(s, t, l) <==> exists|k: int|
                    0 <= k < edges@.len() && (#[trigger] edges@[k]).0 == s && edges@[k].1 == t
                        && edges@[k].2 == l by {
                if self.connects(s, t, l) {
                    let e = choose|e: int|
                        0 <= e < ge.len() && gn[(#[trigger] ge[e]).0 as int] == s && gn[ge[e].1 as int]
                            == t && ge[e].2 == l;
                    assert(edges@[e].0 == s && edges@[e].1 == t && edges@[e].2 == l);
                }
                if exists|k: int|
                    0 <= k < edges@.len() && (#[trigger] edges@[k]).0 == s && edges@[k].1 == t
                        && edges@[k].2 == l {
                    let k = choose|k: int|
                        0 <= k < edges@.len() && (#[trigger] edges@[k]).0 == s && edges@[k].1 == t
                            && edges@[k].2 == l;
                    assert(gn[ge[k].0 as int] == s && gn[ge[k].1 as int] == t && ge[k].2 == l);
                }
            }
        }
        edges
    }

    /// The package of this graph's snapshot that has an identifier.
    pub fn package_identity(&self, id: &str) -> (r: Option<Pid<'a>>)
        ensures
            match self.meta.spec_package_index(id@) {
                Some(ix) => r is Some && r->0.index() == ix && r->0.meta() == self.meta,
                None => r is None,
            },
    {
        match self.meta.package_index(id) {
            Some(ix) => Pid::new(ix, self.meta),
            None => None,
        }
    }

    /// The feature of a node that was ever created.
    pub fn feature(&self, id: usize) -> (r: Option<Feature<'a>>)
        ensures
            r == if id < self.nodes@.len() {
                Some(self.nodes@[id as int])
            } else {
                None
            },
    {
        if id < self.nodes.len() {
            Some(self.nodes[id])
        } else {
            None
        }
    }

    /// The link of an edge that was ever added.
    pub fn link(&self, id: usize) -> (r: Option<Link<'a>>)
        ensures
            r == if id < self.links@.len() {
                Some(self.links@[id as int])
            } else {
                None
            },
    {
        if id < self.links.len() {
            Some(self.links[id])
        } else {
            None
        }
    }

    /// The requested platforms on which a node of the graph can be active,
    /// where they were computed for it.
    pub fn platforms_of(&self, id: usize) -> (r: Option<&Vec<&'a str>>)
        requires
            self.wf(),
        ensures
            match r {
                Some(list) => self.has_node(id as int) && id < self.platforms@.len()
                    && self.platforms@[id as int] == Some(*list),
                None => !self.has_node(id as int) || self.platforms@[id as int] is None,
            },
    {
        proof {
            reveal(FeatGraph2::wf);
            reveal(FeatGraph2::tables_wf);
        }
        if id < self.alive.len() && self.alive[id] {
            self.platforms[id].as_ref()
        } else {
            None
        }
    }

    /// The node of the graph that stands for a feature of this graph's
    /// snapshot.
    pub fn find(&self, fid: Fid<'a>) -> (r: Option<usize>)
        requires
            self.wf(),
            fid.0.meta() == self.meta,
        ensures
            match r {
                Some(id) => self.has_node(id as int) && id < self.nodes@.len() && self.node_views()[id as int].fid()
                    == Some(fid@),
                None => forall|id: int|
                    #![trigger self.has_node(id)]
                    self.has_node(id) && 0 <= id < self.nodes@.len() ==> self.node_views()[id].fid()
                        != Some(fid@),
            },
    {
        proof {
            reveal(FeatGraph2::wf);
            reveal(FeatGraph2::tables_wf);
        }
        let p = fid.0.position();
        let mut k: usize = 0;
        while k < self.fids[p].len()
            invariant
                self.wf(),
                p == fid.0.index(),
                p < self.fids@.len(),
                k <= self.fids@[p as int]@.len(),
                forall|j: int|
                    0 <= j < k ==> self.node_views()[#[trigger] self.fids@[p as int]@[j] as int].fid()
                        != Some(fid@),
            decreases self.fids@[p as int]@.len() - k,
        {
            proof {
                reveal(FeatGraph2::wf);
                reveal(FeatGraph2::tables_wf);
            }
            let id = self.fids[p][k];
            let found = match self.nodes[id].fid() {
                Some(f) => f.same(&fid),
                None => false,
            };
            if found {
                if self.alive[id] {
                    return Some(id);
                } else {
                    proof {
                        let m = self.model();
                        assert forall|x: int|
                            #![trigger self.has_node(x)]
                            self.has_node(x) && 0 <= x < self.nodes@.len() implies self.node_views()[x].fid()
                            != Some(fid@) by {
                            if self.node_views()[x].fid() == Some(fid@) {
                                assert(m.nodes[x].fid() == m.nodes[id as int].fid());
                                if x < id {
                                    assert(m.nodes[x].fid() != m.nodes[id as int].fid());
                                } else if id < x {
                                    assert(m.nodes[id as int].fid() != m.nodes[x].fid());
                                }
                            }
                        }
                    }
                    return None;
                }
            }
            k += 1;
        }
        proof {
            assert forall|x: int|
                #![trigger self.has_node(x)]
                self.has_node(x) && 0 <= x < self.nodes@.len() implies self.node_views()[x].fid()
                != Some(fid@) by {
                if self.node_views()[x].fid() == Some(fid@) {
                    assert(x >= 1);
                    assert(self.fids@[self.node_views()[x].fid()->0.pkg]@.contains(x as usize));
                    let j = choose|j: int|
                        0 <= j < self.fids@[p as int]@.len() && self.fids@[p as int]@[j] == x as usize;
                    assert(self.node_views()[self.fids@[p as int]@[j] as int].fid() != Some(fid@));
                }
            }
        }
        None
    }
}

} // verus!
