//! How the nodes and edges of a feature graph present themselves.

use crate::feat_graph::FeatGraph2;
use crate::ident::Feature;
use crate::ident::Fid;
use vstd::prelude::*;
use vstd::string::StringExecFns;

verus! {

/// The label of a feature node: the name and the version of its package and,
/// on a line of its own, the name of the feature. The root is labelled `root`.
pub open spec fn spec_label(node: Feature) -> Seq<char> {
    match node {
        Feature::Root => "root"@,
        Feature::Workspace(fid) => feature_label(fid),
        Feature::External(fid) => feature_label(fid),
    }
}

/// The label of a feature.
pub open spec fn feature_label(fid: Fid) -> Seq<char> {
    let package = fid.0.meta().packages@[fid.0.index() as int];
    let head = package.name@ + " "@ + package.version@;
    match fid.1 {
        Some(feature) => head + "\n"@ + feature@,
        None => head,
    }
}

impl<'a> Feature<'a> {
    /// The label of the node.
    pub fn label(&self) -> (r: String)
        ensures
            r@ == spec_label(*self),
    {
        match self.fid() {
            Some(fid) => {
                let package = fid.0.package();
                let mut text = String::from_str(package.name.as_str());
                text.append(" ");
                text.append(package.version.as_str());
                match fid.1 {
                    Some(feature) => {
                        text.append("\n");
                        text.append(feature);
                    },
                    None => {},
                }
                text
            },
            None => String::from_str("root"),
        }
    }
}

impl<'a> FeatGraph2<'a> {
    /// The label of a node.
    pub fn node_label(&self, id: usize) -> (r: String)
        requires
            id < self.nodes@.len(),
        ensures
            r@ == spec_label(self.nodes@[id as int]),
    {
        self.nodes[id].label()
    }

    /// Whether a node is drawn filled: the features of packages outside the
    /// workspace are, the root and the features of workspace members are not.
    pub fn node_filled(&self, id: usize) -> (r: bool)
        requires
            self.tables_wf(),
            id < self.nodes@.len(),
        ensures
            r == (self.nodes@[id as int] is External),
    {
        proof {
            reveal(FeatGraph2::tables_wf);
        }
        match self.nodes[id].fid() {
            Some(fid) => {
                assert(id >= 1) by {
                    assert(self.model().nodes[0] == crate::ident::FeatureView::Root);
                    assert(self.model().nodes[id as int] == self.nodes@[id as int]@);
                }
                !self.workspace_members[fid.0.position()]
            },
            None => false,
        }
    }

    /// The colour of the edges that carry a link: grey where the link is
    /// optional, else black.
    pub fn edge_color(&self, link: usize) -> (r: &'static str)
        requires
            link < self.links@.len(),
        ensures
            r@ == if self.links@[link as int].optional {
                "grey"@
            } else {
                "black"@
            },
    {
        if self.links[link].optional {
            "grey"
        } else {
            "black"
        }
    }
}

} // verus!
