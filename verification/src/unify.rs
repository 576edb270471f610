//! Which features of which outside packages a workspace asks for, all members
//! taken together.
//!
//! What the root reaches is what building the whole workspace activates. For
//! every package outside the workspace this gives the set of its features
//! that some member activates: the features to pin where every member is to
//! build the package in the same way.

use crate::feat_graph::FeatGraph2;
use crate::ident::Feature;
use crate::reach::reaches;
use vstd::prelude::*;

verus! {

/// The feature lists gathered from the first `i` of the nodes `ids`: for each
/// package that has an external node among them, the names of its external
/// feature nodes among them, in their order. A base node adds its package
/// without a name.
pub open spec fn gathered<'a>(nodes: Seq<Feature<'a>>, ids: Seq<usize>, i: int, packages: nat) -> Seq<
    Option<Seq<&'a str>>,
>
    decreases i,
{
    if i <= 0 {
        Seq::new(packages, |p: int| None)
    } else {
        let before = gathered(nodes, ids, i - 1, packages);
        match nodes[ids[i - 1] as int] {
            Feature::External(f) => {
                let p = f.0.index() as int;
                let names = match before[p] {
                    Some(names) => names,
                    None => Seq::empty(),
                };
                if p >= packages {
                    before
                } else {
                    match f.1 {
                        Some(name) => before.update(p, Some(names.push(name))),
                        None => before.update(p, Some(names)),
                    }
                }
            },
            _ => before,
        }
    }
}

/// Whether one of the first `i` of the nodes `ids` is an external node of the
/// package at `p`.
pub open spec fn meets_package(nodes: Seq<Feature>, ids: Seq<usize>, i: int, p: int) -> bool {
    exists|j: int|
        0 <= j < i && match nodes[#[trigger] ids[j] as int] {
            Feature::External(f) => f.0.index() == p,
            _ => false,
        }
}

/// Whether one of the first `i` of the nodes `ids` is the external feature
/// `name` of the package at `p`.
pub open spec fn meets_feature(nodes: Seq<Feature>, ids: Seq<usize>, i: int, p: int, name: Seq<char>) -> bool {
    exists|j: int|
        0 <= j < i && match nodes[#[trigger] ids[j] as int] {
            Feature::External(f) => f.0.index() == p && f.1 is Some && f.1->0@ == name,
            _ => false,
        }
}

/// Whether a list of names holds a name.
pub open spec fn names(list: Seq<&str>, name: Seq<char>) -> bool {
    exists|k: int| 0 <= k < list.len() && (#[trigger] list[k])@ == name
}

/// What is gathered is what was met.
pub proof fn lemma_gathered(nodes: Seq<Feature>, ids: Seq<usize>, i: int, packages: nat, p: int, name: Seq<char>)
    requires
        0 <= i <= ids.len(),
        0 <= p < packages,
        forall|j: int| 0 <= j < ids.len() ==> #[trigger] ids[j] < nodes.len(),
        forall|j: int|
            0 <= j < ids.len() ==> match nodes[#[trigger] ids[j] as int] {
                Feature::External(f) => f.0.index() < packages,
                _ => true,
            },
    ensures
        gathered(nodes, ids, i, packages).len() == packages,
        gathered(nodes, ids, i, packages)[p] is Some <==> meets_package(nodes, ids, i, p),
        gathered(nodes, ids, i, packages)[p] is Some && names(
            gathered(nodes, ids, i, packages)[p]->0,
            name,
        ) <==> meets_feature(nodes, ids, i, p, name),
    decreases i,
{
    if i > 0 {
        lemma_gathered(nodes, ids, i - 1, packages, p, name);
        let before = gathered(nodes, ids, i - 1, packages);
        let now = gathered(nodes, ids, i, packages);
        let node = nodes[ids[i - 1] as int];
        assert(ids[i - 1] < nodes.len());
        if meets_package(nodes, ids, i, p) {
            let j = choose|j: int|
                0 <= j < i && match nodes[#[trigger] ids[j] as int] {
                    Feature::External(f) => f.0.index() == p,
                    _ => false,
                };
            if j < i - 1 {
                assert(meets_package(nodes, ids, i - 1, p));
            }
        }
        if meets_package(nodes, ids, i - 1, p) {
            let j = choose|j: int|
                0 <= j < i - 1 && match nodes[#[trigger] ids[j] as int] {
                    Feature::External(f) => f.0.index() == p,
                    _ => false,
                };
            assert(0 <= j < i);
        }
        if meets_feature(nodes, ids, i, p, name) {
            let j = choose|j: int|
                0 <= j < i && match nodes[#[trigger] ids[j] as int] {
                    Feature::External(f) => f.0.index() == p && f.1 is Some && f.1->0@ == name,
                    _ => false,
                };
            if j < i - 1 {
                assert(meets_feature(nodes, ids, i - 1, p, name));
            }
        }
        if meets_feature(nodes, ids, i - 1, p, name) {
            let j = choose|j: int|
                0 <= j < i - 1 && match nodes[#[trigger] ids[j] as int] {
                    Feature::External(f) => f.0.index() == p && f.1 is Some && f.1->0@ == name,
                    _ => false,
                };
            assert(0 <= j < i);
        }
        match node {
            Feature::External(f) => {
                let q = f.0.index() as int;
                let old_names = match before[q] {
                    Some(list) => list,
                    None => Seq::empty(),
                };
                if q == p {
                    assert(meets_package(nodes, ids, i, p)) by {
                        assert(ids[i - 1] == ids[i - 1]);
                    }
                    match f.1 {
                        Some(n) => {
                            let list = old_names.push(n);
                            assert(now[p] == Some(list));
                            if names(list, name) {
                                let k = choose|k: int| 0 <= k < list.len() && (#[trigger] list[k])@ == name;
                                if k < old_names.len() {
                                    assert(old_names[k]@ == name);
                                    assert(names(old_names, name));
                                    assert(before[p] is Some);
                                } else {
                                    assert(n@ == name);
                                    assert(meets_feature(nodes, ids, i, p, name)) by {
                                        assert(ids[i - 1] == ids[i - 1]);
                                    }
                                }
                            }
                            if meets_feature(nodes, ids, i, p, name) {
                                if meets_feature(nodes, ids, i - 1, p, name) {
                                    let k = choose|k: int|
                                        0 <= k < old_names.len() && (#[trigger] old_names[k])@ == name;
                                    assert(list[k]@ == name);
                                } else {
                                    assert(n@ == name);
                                    assert(list[list.len() - 1]@ == name);
                                }
                            }
                        },
                        None => {
                            assert(now[p] == Some(old_names));
                            if names(old_names, name) {
                                assert(before[p] is Some);
                            }
                        },
                    }
                } else {
                    assert(now[p] == before[p]);
                }
            },
            _ => {},
        }
    }
}

/// One list is gathered for each package.
pub proof fn lemma_gathered_len(nodes: Seq<Feature>, ids: Seq<usize>, i: int, packages: nat)
    ensures
        gathered(nodes, ids, i, packages).len() == packages,
    decreases i,
{
    if i > 0 {
        lemma_gathered_len(nodes, ids, i - 1, packages);
    }
}

impl<'a> FeatGraph2<'a> {
    /// Whether the root reaches a node.
    pub open spec fn activates(&self, id: int) -> bool {
        self.has_node(self.root as int) && reaches(self.arrows(), self.root as int, id)
    }

    /// Whether the root reaches an external node of the package at `p`.
    pub open spec fn activates_package(&self, p: int) -> bool {
        exists|id: int|
            self.activates(id) && 0 <= id < self.nodes@.len() && match #[trigger] self.nodes@[id] {
                Feature::External(f) => f.0.index() == p,
                _ => false,
            }
    }

    /// Whether the root reaches the external feature `name` of the package at
    /// `p`.
    pub open spec fn activates_feature(&self, p: int, name: Seq<char>) -> bool {
        exists|id: int|
            self.activates(id) && 0 <= id < self.nodes@.len() && match #[trigger] self.nodes@[id] {
                Feature::External(f) => f.0.index() == p && f.1 is Some && f.1->0@ == name,
                _ => false,
            }
    }

    /// The nodes of the graph have their place in the table of nodes, and the
    /// external ones belong to packages of the snapshot.
    pub proof fn lemma_nodes_in_range(&self, ids: Seq<usize>)
        requires
            self.wf(),
            forall|id: usize| #[trigger] ids.contains(id) ==> self.activates(id as int),
        ensures
            forall|j: int| 0 <= j < ids.len() ==> #[trigger] ids[j] < self.nodes@.len(),
            forall|j: int|
                0 <= j < ids.len() ==> match self.nodes@[#[trigger] ids[j] as int] {
                    Feature::External(f) => f.0.index() < self.meta.packages@.len(),
                    _ => true,
                },
    {
        reveal(FeatGraph2::wf);
        reveal(FeatGraph2::tables_wf);
        let gn = crate::store::graph_nodes(self.features);
        let ge = crate::store::graph_edges(self.features);
        assert forall|j: int| 0 <= j < ids.len() implies #[trigger] ids[j] < self.nodes@.len() by {
            assert(ids.contains(ids[j]));
            assert(self.activates(ids[j] as int));
            crate::search::lemma_reached_is_node(gn, ge, self.root as int, ids[j] as int);
            let k = choose|k: int| 0 <= k < gn.len() && gn[k] == ids[j];
        }
        assert forall|j: int| 0 <= j < ids.len() implies match self.nodes@[#[trigger] ids[j] as int] {
            Feature::External(f) => f.0.index() < self.meta.packages@.len(),
            _ => true,
        } by {
            let id = ids[j] as int;
            if id >= 1 {
                assert(match self.nodes@[id] {
                    Feature::Root => false,
                    Feature::Workspace(f) => f.0.index() < self.meta.packages@.len(),
                    Feature::External(f) => f.0.index() < self.meta.packages@.len(),
                });
            } else {
                assert(self.model().nodes[0] == crate::ident::FeatureView::Root);
                assert(self.nodes@[0]@ == crate::ident::FeatureView::Root);
            }
        }
    }

    /// What is gathered from the nodes that the root reaches is what the root
    /// activates.
    pub proof fn lemma_unified(&self, ids: Seq<usize>, lists: Seq<Option<Seq<&'a str>>>)
        requires
            forall|id: usize| #[trigger] ids.contains(id) <==> self.activates(id as int),
            forall|j: int| 0 <= j < ids.len() ==> #[trigger] ids[j] < self.nodes@.len(),
            forall|j: int|
                0 <= j < ids.len() ==> match self.nodes@[#[trigger] ids[j] as int] {
                    Feature::External(f) => f.0.index() < self.meta.packages@.len(),
                    _ => true,
                },
            self.nodes@.len() <= usize::MAX,
            lists == gathered(self.nodes@, ids, ids.len() as int, self.meta.packages@.len()),
        ensures
            lists.len() == self.meta.packages@.len(),
            forall|p: int| 0 <= p < lists.len() ==> (#[trigger] lists[p] is Some <==> self.activates_package(p)),
            forall|p: int, name: Seq<char>|
                0 <= p < lists.len() ==> (lists[p] is Some && names(lists[p]->0, name)
                    <==> #[trigger] self.activates_feature(p, name)),
    {
        let all = ids.len() as int;
        let packages = self.meta.packages@.len();
        if packages > 0 {
            lemma_gathered(self.nodes@, ids, all, packages, 0, Seq::empty());
        } else {
            lemma_gathered_len(self.nodes@, ids, all, packages);
        }
        assert forall|p: int| 0 <= p < lists.len() implies (#[trigger] lists[p] is Some
            <==> self.activates_package(p)) by {
            lemma_gathered(self.nodes@, ids, all, packages, p, Seq::empty());
            if meets_package(self.nodes@, ids, all, p) {
                let j = choose|j: int|
                    0 <= j < all && match self.nodes@[#[trigger] ids[j] as int] {
                        Feature::External(f) => f.0.index() == p,
                        _ => false,
                    };
                assert(ids.contains(ids[j]));
                assert(self.activates(ids[j] as int));
            }
            if self.activates_package(p) {
                let id = choose|id: int|
                    self.activates(id) && 0 <= id < self.nodes@.len() && match #[trigger] self.nodes@[id] {
                        Feature::External(f) => f.0.index() == p,
                        _ => false,
                    };
                assert(ids.contains(id as usize));
                let j = choose|j: int| 0 <= j < ids.len() && ids[j] == id as usize;
                assert(meets_package(self.nodes@, ids, all, p));
            }
        }
        assert forall|p: int, name: Seq<char>| 0 <= p < lists.len() implies (lists[p] is Some && names(
            lists[p]->0,
            name,
        ) <==> #[trigger] self.activates_feature(p, name)) by {
            lemma_gathered(self.nodes@, ids, all, packages, p, name);
            if meets_feature(self.nodes@, ids, all, p, name) {
                let j = choose|j: int|
                    0 <= j < all && match self.nodes@[#[trigger] ids[j] as int] {
                        Feature::External(f) => f.0.index() == p && f.1 is Some && f.1->0@ == name,
                        _ => false,
                    };
                assert(ids.contains(ids[j]));
                assert(self.activates(ids[j] as int));
            }
            if self.activates_feature(p, name) {
                let id = choose|id: int|
                    self.activates(id) && 0 <= id < self.nodes@.len() && match #[trigger] self.nodes@[id] {
                        Feature::External(f) => f.0.index() == p && f.1 is Some && f.1->0@ == name,
                        _ => false,
                    };
                assert(ids.contains(id as usize));
                let j = choose|j: int| 0 <= j < ids.len() && ids[j] == id as usize;
                assert(meets_feature(self.nodes@, ids, all, p, name));
            }
        }
    }

    /// For every package, by its position: nothing where the root reaches no
    /// external node of the package, else the names of the features of the
    /// package that the root reaches.
    pub fn unified_features(&self) -> (r: Vec<Option<Vec<&'a str>>>)
        requires
            self.wf(),
        ensures
            r@.len() == self.meta.packages@.len(),
            forall|p: int|
                0 <= p < r@.len() ==> (#[trigger] r@[p] is Some <==> self.activates_package(p)),
            forall|p: int, name: Seq<char>|
                0 <= p < r@.len() ==> (r@[p] is Some && names(r@[p]->0@, name)
                    <==> #[trigger] self.activates_feature(p, name)),
    {
        let ids = self.reachable(self.root);
        let packages = self.meta.packages.len();
        let _nodes = self.nodes.len();
        let mut lists: Vec<Option<Vec<&'a str>>> = Vec::new();
        let mut p: usize = 0;
        while p < packages
            invariant
                p <= packages,
                lists@.len() == p,
                forall|q: int| 0 <= q < p ==> #[trigger] lists@[q] is None,
            decreases packages - p,
        {
            lists.push(None);
            p += 1;
        }
        proof {
            self.lemma_nodes_in_range(ids@);
            assert(views(lists@) =~= gathered(self.nodes@, ids@, 0, packages as nat));
        }
        let mut i: usize = 0;
        while i < ids.len()
            invariant
                i <= ids@.len(),
                lists@.len() == packages,
                packages == self.meta.packages@.len(),
                forall|j: int| 0 <= j < ids@.len() ==> #[trigger] ids@[j] < self.nodes@.len(),
                forall|j: int|
                    0 <= j < ids@.len() ==> match self.nodes@[#[trigger] ids@[j] as int] {
                        Feature::External(f) => f.0.index() < packages,
                        _ => true,
                    },
                views(lists@) == gathered(self.nodes@, ids@, i as int, packages as nat),
            decreases ids@.len() - i,
        {
            let ghost before = views(lists@);
            match self.nodes[ids[i]] {
                Feature::External(f) => {
                    let q = f.0.position();
                    if lists[q].is_none() {
                        lists[q] = Some(Vec::new());
                    }
                    match (&mut lists[q], f.1) {
                        (Some(list), Some(name)) => {
                            list.push(name);
                        },
                        _ => {},
                    }
                    proof {
                        assert(views(lists@) =~= gathered(self.nodes@, ids@, i + 1, packages as nat));
                    }
                },
                _ => {
                    proof {
                        assert(views(lists@) =~= gathered(self.nodes@, ids@, i + 1, packages as nat));
                    }
                },
            }
            i += 1;
        }
        proof {
            self.lemma_unified(ids@, views(lists@));
            assert forall|p: int| 0 <= p < lists@.len() implies (#[trigger] lists@[p] is Some
                <==> self.activates_package(p)) by {
                assert(views(lists@)[p] is Some <==> lists@[p] is Some);
            }
            assert forall|p: int, name: Seq<char>| 0 <= p < lists@.len() implies (lists@[p] is Some
                && names(lists@[p]->0@, name) <==> #[trigger] self.activates_feature(p, name)) by {
                assert(views(lists@)[p] is Some <==> lists@[p] is Some);
                if lists@[p] is Some {
                    assert(views(lists@)[p]->0 == lists@[p]->0@);
                }
            }
        }
        lists
    }
}

/// The lists as plain values.
pub open spec fn views<'a>(lists: Seq<Option<Vec<&'a str>>>) -> Seq<Option<Seq<&'a str>>> {
    Seq::new(
        lists.len(),
        |p: int|
            match lists[p] {
                Some(list) => Some(list@),
                None => None,
            },
    )
}

} // verus!
