//! The shape of a feature graph: which nodes it has and which edges join
//! them, with every node and link given by its identifier.

use crate::reach::has_detour;
use crate::reach::Rel;
use vstd::prelude::*;

verus! {

/// The nodes of a graph and its edges. An edge is its source, its target and
/// its link.
pub struct Shape {
    pub nodes: Set<int>,
    pub edges: Set<(int, int, int)>,
}

/// Whether a node was found to be active on no requested platform: platforms
/// were computed for it, and none is left.
pub open spec fn starved(platforms: Seq<Option<Seq<&str>>>, id: int) -> bool {
    0 <= id < platforms.len() && platforms[id] is Some && platforms[id]->0.len() == 0
}

/// The nodes that were not found to be active on no requested platform.
pub open spec fn fed(platforms: Seq<Option<Seq<&str>>>) -> Set<int> {
    Set::new(|id: int| !starved(platforms, id))
}

impl Shape {
    /// The edges as a relation between nodes.
    pub open spec fn arrows(self) -> Rel {
        |s: int, t: int| exists|l: int| self.edges.contains((s, t, l))
    }

    /// What is left when only the nodes of `keep` stay: those nodes, and the
    /// edges between two of them.
    pub open spec fn restricted(self, keep: Set<int>) -> Shape {
        Shape {
            nodes: Set::new(|id: int| self.nodes.contains(id) && keep.contains(id)),
            edges: Set::new(
                |e: (int, int, int)| self.edges.contains(e) && keep.contains(e.0) && keep.contains(e.1),
            ),
        }
    }

    /// Whether a set of nodes can stand by itself: each of its external
    /// features is required by a node of the set.
    pub open spec fn closed(self, external: Set<int>, kept: Set<int>) -> bool {
        forall|id: int| #[trigger]
            kept.contains(id) ==> self.nodes.contains(id) && (external.contains(id) ==> exists|
                s: int,
                l: int,
            |
                kept.contains(s) && self.edges.contains((s, id, l)))
    }

    /// Whether a node is required: it belongs to a set of nodes that can stand
    /// by itself. Every node that is no external feature is required; an
    /// external feature is required where a required node has an edge to it.
    pub open spec fn requires_node(self, external: Set<int>, id: int) -> bool {
        exists|kept: Set<int>| self.closed(external, kept) && kept.contains(id)
    }

    /// The nodes that are required.
    pub open spec fn required(self, external: Set<int>) -> Set<int> {
        Set::new(|id: int| self.requires_node(external, id))
    }

    /// What is left when every edge goes whose target its source also reaches
    /// over two edges or more.
    pub open spec fn reduced(self) -> Shape {
        Shape {
            nodes: self.nodes,
            edges: Set::new(
                |e: (int, int, int)| self.edges.contains(e) && !has_detour(self.arrows(), e.0, e.1),
            ),
        }
    }
}

/// A node that is no external feature is required, and so is an external
/// feature with an edge from a required node.
pub proof fn lemma_required_steps(shape: Shape, external: Set<int>, id: int)
    requires
        shape.nodes.contains(id),
    ensures
        !external.contains(id) ==> shape.requires_node(external, id),
        (exists|s: int, l: int| shape.requires_node(external, s) && shape.edges.contains((s, id, l)))
            ==> shape.requires_node(external, id),
{
    if !external.contains(id) {
        let kept = Set::new(|x: int| x == id);
        assert(shape.closed(external, kept));
        assert(kept.contains(id));
    }
    if exists|s: int, l: int| shape.requires_node(external, s) && shape.edges.contains((s, id, l)) {
        let (s, l) = choose|s: int, l: int|
            shape.requires_node(external, s) && shape.edges.contains((s, id, l));
        let base = choose|kept: Set<int>| shape.closed(external, kept) && kept.contains(s);
        let kept = Set::new(|x: int| base.contains(x) || x == id);
        assert forall|x: int| #[trigger] kept.contains(x) implies shape.nodes.contains(x) && (
        external.contains(x) ==> exists|s2: int, l2: int|
            kept.contains(s2) && shape.edges.contains((s2, x, l2))) by {
            if base.contains(x) {
                if external.contains(x) {
                    let (s2, l2) = choose|s2: int, l2: int|
                        base.contains(s2) && shape.edges.contains((s2, x, l2));
                    assert(kept.contains(s2) && shape.edges.contains((s2, x, l2)));
                }
            } else {
                assert(kept.contains(s) && shape.edges.contains((s, id, l)));
            }
        }
        assert(shape.closed(external, kept));
        assert(kept.contains(id));
    }
}

/// An external feature is required only where a required node has an edge to
/// it.
pub proof fn lemma_required_needs_edge(shape: Shape, external: Set<int>, id: int)
    requires
        shape.requires_node(external, id),
        external.contains(id),
    ensures
        exists|s: int, l: int| shape.requires_node(external, s) && shape.edges.contains((s, id, l)),
{
    let kept = choose|kept: Set<int>| shape.closed(external, kept) && kept.contains(id);
    assert(kept.contains(id));
    let (s, l) = choose|s: int, l: int| kept.contains(s) && shape.edges.contains((s, id, l));
    assert(shape.requires_node(external, s));
}

} // verus!
