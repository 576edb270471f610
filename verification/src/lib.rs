//! Feature-level activation graphs for multi-package workspaces.
//!
//! From a fully resolved dependency graph this crate derives a graph whose
//! nodes are "a package with one optional feature turned on" and whose edges
//! say "activating this feature forces that one". The graph is then cut down to
//! what a given list of target platforms can reach, and reduced to its
//! smallest set of edges.
//!
//! The way through the crate:
//!
//! - [`metadata`] holds the snapshot that a graph is built from, [`ident`] the
//!   identities of packages, features, nodes and links, [`names`] and
//!   [`lookup`] the matching of dependency names.
//! - [`model`] says what graph a snapshot gives rise to; [`feat_graph`] and
//!   [`builder`] build it.
//! - [`platform`] and [`propagate`] hand the requested platforms down from the
//!   root.
//! - [`optimize`] and [`reduce`] cut the graph down; [`shape`] and [`reach`]
//!   hold the mathematics of what is left.
//! - [`init`] puts the steps together and says what comes out of them.
//! - [`query`], [`search`], [`unify`] and [`render`] look into a finished
//!   graph.
//!
//! Everything is verified but the calls into other crates. The graph is kept
//! in a `petgraph` graph, and its topological order and its transitive
//! reduction are computed by `petgraph`; platform predicates are evaluated by
//! `target-spec`; versions are recognised by `semver`. Each of these calls is
//! made in one function whose contract is taken on trust: those of `petgraph`
//! in [`store`], that of `target-spec` in [`platform`], that of `semver` in
//! [`cli`].

pub mod builder;
pub mod cli;
pub mod error;
pub mod feat_graph;
pub mod ident;
pub mod init;
pub mod lookup;
pub mod metadata;
pub mod model;
pub mod names;
pub mod optimize;
pub mod platform;
pub mod propagate;
pub mod query;
pub mod reach;
pub mod reduce;
pub mod render;
pub mod search;
pub mod shape;
pub mod store;
pub mod unify;
