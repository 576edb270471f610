//! The topology of the feature graph, kept in a `petgraph` graph.
//!
//! Nodes and edges of the stored graph carry plain numbers: a node carries the
//! identifier of a feature node, an edge the identifier of a link. What the
//! graph holds is named by three functions over it, and each operation of
//! `petgraph` that the library uses is reached through one function of this
//! module, whose contract says what the operation does to what the graph holds.
//! None of these contracts is proved here: they restate how `petgraph` 0.6
//! behaves.

use crate::reach::has_detour;
use crate::reach::on_cycle;
use crate::reach::Rel;
use petgraph::adj::List;
use petgraph::algo::toposort;
use petgraph::algo::tred::dag_to_toposorted_adjacency_list;
use petgraph::algo::tred::dag_transitive_reduction_closure;
use petgraph::graph::Graph;
use petgraph::graph::NodeIndex;
use petgraph::visit::EdgeRef;
use petgraph::visit::IntoNeighbors;
use petgraph::Direction;
use vstd::prelude::*;

verus! {

/// `petgraph::graph::Graph`, of which the verifier sees nothing but the name.
#[verifier::external_type_specification]
#[verifier::external_body]
#[verifier::reject_recursive_types(N)]
#[verifier::reject_recursive_types(E)]
#[verifier::reject_recursive_types(Ty)]
#[verifier::reject_recursive_types(Ix)]
pub struct ExGraph<N, E, Ty, Ix>(Graph<N, E, Ty, Ix>);

/// `petgraph::Directed`, the mark of a graph whose edges have a direction.
#[verifier::external_type_specification]
#[verifier::external_body]
pub struct ExDirected(petgraph::Directed);

/// `petgraph::adj::List`: an adjacency list over ranks, as the transitive
/// reduction of `petgraph` takes it. The verifier sees nothing of what it
/// holds.
#[verifier::external_body]
pub struct Ranked {
    inner: List<(), NodeIndex>,
}

/// The weights of the nodes of a graph, by node index.
pub uninterp spec fn graph_nodes(g: Graph<usize, usize>) -> Seq<usize>;

/// The edges of a graph, by edge index: the index of the source node, the
/// index of the target node, and the weight.
pub uninterp spec fn graph_edges(g: Graph<usize, usize>) -> Seq<(usize, usize, usize)>;

/// The indices of the edges that leave the node at index `a`, in the order in
/// which the graph hands them out.
pub uninterp spec fn graph_out(g: Graph<usize, usize>, a: int) -> Seq<usize>;

/// The rows of an adjacency list: for each rank, the ranks of its successors
/// in the order in which they are stored.
pub uninterp spec fn list_rows(l: Ranked) -> Seq<Seq<usize>>;

/// Whether some edge leads from the node at index `a` to the node at index `b`.
pub open spec fn has_edge(edges: Seq<(usize, usize, usize)>, a: int, b: int) -> bool {
    exists|e: int| 0 <= e < edges.len() && (#[trigger] edges[e]).0 == a && edges[e].1 == b
}

/// Whether no edge leads to the node at index `a`.
pub open spec fn is_source(edges: Seq<(usize, usize, usize)>, a: int) -> bool {
    forall|e: int| 0 <= e < edges.len() ==> (#[trigger] edges[e]).1 != a
}

/// The edges as a relation between node indices.
pub open spec fn edge_rel(edges: Seq<(usize, usize, usize)>) -> Rel {
    |a: int, b: int| has_edge(edges, a, b)
}

/// Whether the row of rank `a` holds rank `b`.
pub open spec fn in_row(rows: Seq<Seq<usize>>, a: int, b: int) -> bool {
    0 <= a < rows.len() && exists|k: int| 0 <= k < rows[a].len() && #[trigger] rows[a][k] == b
}

/// The rows as a relation between ranks.
pub open spec fn row_rel(rows: Seq<Seq<usize>>) -> Rel {
    |a: int, b: int| in_row(rows, a, b)
}

/// Where a node index points after the node at `gone` was removed from a graph
/// whose last node index was `last`: the last node takes the freed index.
pub open spec fn moved(x: usize, gone: usize, last: int) -> usize {
    if x == last {
        gone
    } else {
        x
    }
}

/// What becomes of an edge that stays when the node at `gone` is removed.
pub open spec fn moved_edge(e: (usize, usize, usize), gone: usize, last: int) -> (
    usize,
    usize,
    usize,
) {
    (moved(e.0, gone, last), moved(e.1, gone, last), e.2)
}

/// Whether the edge `after` is what the removal of the node at `gone` makes of
/// the edge `before`: `before` touches the node at neither end, and `after`
/// joins the new indices of its nodes.
pub open spec fn came_from(
    before: (usize, usize, usize),
    after: (usize, usize, usize),
    gone: usize,
    count: int,
) -> bool {
    before.0 != gone && before.1 != gone && after == moved_edge(before, gone, count - 1)
}

/// Whether the edge `after` comes from one of the edges `before`.
pub open spec fn has_origin(
    before: Seq<(usize, usize, usize)>,
    after: (usize, usize, usize),
    gone: usize,
    count: int,
) -> bool {
    exists|j: int| 0 <= j < before.len() && came_from(#[trigger] before[j], after, gone, count)
}

/// Whether one of the edges `after` comes from the edge `before`.
pub open spec fn has_image(
    after: Seq<(usize, usize, usize)>,
    before: (usize, usize, usize),
    gone: usize,
    count: int,
) -> bool {
    exists|i: int| 0 <= i < after.len() && came_from(before, #[trigger] after[i], gone, count)
}

/// What the removal of the node at `gone` from a graph of `count` nodes makes
/// of the edges `before`: every edge of `after` comes from an edge of
/// `before`, and every edge of `before` that touches the node at neither end
/// has its edge in `after`.
pub open spec fn edges_without(
    before: Seq<(usize, usize, usize)>,
    after: Seq<(usize, usize, usize)>,
    gone: usize,
    count: int,
) -> bool {
    &&& forall|i: int| 0 <= i < after.len() ==> has_origin(before, #[trigger] after[i], gone, count)
    &&& forall|j: int|
        0 <= j < before.len() && (#[trigger] before[j]).0 != gone && before[j].1 != gone
            ==> has_image(after, before[j], gone, count)
}

/// Whether the node index `v` stands in the order.
pub open spec fn placed(order: Seq<usize>, v: int) -> bool {
    exists|i: int| 0 <= i < order.len() && #[trigger] order[i] == v
}

/// An order of all node indices, each once, in which every edge leads forward.
pub open spec fn is_topological(order: Seq<usize>, n: int, edges: Seq<(usize, usize, usize)>) -> bool {
    &&& order.len() == n
    &&& forall|i: int| 0 <= i < n ==> #[trigger] order[i] < n
    &&& forall|i: int, j: int| 0 <= i < j < n ==> #[trigger] order[i] != #[trigger] order[j]
    &&& forall|v: int| 0 <= v < n ==> #[trigger] placed(order, v)
    &&& forall|i: int, j: int|
        0 <= i < n && 0 <= j < n && has_edge(edges, #[trigger] order[i] as int, #[trigger] order[j] as int)
            ==> i < j
}

/// Rows in which every successor has a higher rank than its row, and which
/// store their successors in rising order.
pub open spec fn rows_sorted(rows: Seq<Seq<usize>>) -> bool {
    &&& forall|r: int, k: int|
        0 <= r < rows.len() && 0 <= k < rows[r].len() ==> r < #[trigger] rows[r][k] < rows.len()
    &&& forall|r: int, j: int, k: int|
        0 <= r < rows.len() && 0 <= j <= k < rows[r].len() ==> #[trigger] rows[r][j]
            <= #[trigger] rows[r][k]
}

/// Whether the edge from node `s` to node `t` is in the reduced rows, where
/// `revmap` gives the rank of each node.
pub open spec fn spec_keeps(reduced: Seq<Vec<usize>>, revmap: Seq<usize>, s: int, t: int) -> bool {
    exists|k: int| 0 <= k < reduced[revmap[s] as int]@.len() && #[trigger] reduced[revmap[s] as int]@[k] == revmap[t]
}

/// Looks an edge up in the reduced rows.
pub fn keeps(reduced: &Vec<Vec<usize>>, revmap: &Vec<usize>, s: usize, t: usize) -> (r: bool)
    requires
        s < revmap@.len(),
        t < revmap@.len(),
        revmap@[s as int] < reduced@.len(),
    ensures
        r == spec_keeps(reduced@, revmap@, s as int, t as int),
{
    let row = &reduced[revmap[s]];
    let want: usize = revmap[t];
    let mut k: usize = 0;
    while k < row.len()
        invariant
            k <= row@.len(),
            row@ == reduced@[revmap@[s as int] as int]@,
            want == revmap@[t as int],
            forall|j: int| 0 <= j < k ==> #[trigger] row@[j] != want,
        decreases row@.len() - k,
    {
        if row[k] == want {
            assert(reduced@[revmap@[s as int] as int]@[k as int] == revmap@[t as int]);
            return true;
        }
        k += 1;
    }
    false
}

/// `Graph::new`: a graph without nodes or edges.
#[verifier::external_body]
pub(crate) fn graph_new() -> (g: Graph<usize, usize>)
    ensures
        graph_nodes(g) == Seq::<usize>::empty(),
        graph_edges(g) == Seq::<(usize, usize, usize)>::empty(),
        forall|a: int| #[trigger] graph_out(g, a) == Seq::<usize>::empty(),
{
    Graph::new()
}

/// `Graph::node_count`.
#[verifier::external_body]
pub(crate) fn graph_node_count(g: &Graph<usize, usize>) -> (n: usize)
    ensures
        n == graph_nodes(*g).len(),
{
    g.node_count()
}

/// `Graph::edge_count`.
#[verifier::external_body]
pub(crate) fn graph_edge_count(g: &Graph<usize, usize>) -> (n: usize)
    ensures
        n == graph_edges(*g).len(),
{
    g.edge_count()
}

/// `Graph::add_node`: the new node gets the next free index and has no edges.
/// The graph must have room for it: its indices are 32 bits wide.
#[verifier::external_body]
pub(crate) fn graph_add_node(g: &mut Graph<usize, usize>, weight: usize) -> (ix: usize)
    requires
        graph_nodes(*old(g)).len() < u32::MAX,
    ensures
        graph_nodes(*final(g)) == graph_nodes(*old(g)).push(weight),
        graph_edges(*final(g)) == graph_edges(*old(g)),
        forall|a: int| #[trigger] graph_out(*final(g), a) == graph_out(*old(g), a),
        ix == graph_nodes(*old(g)).len(),
{
    g.add_node(weight).index()
}

/// `Graph::add_edge`: the new edge gets the next free index and is handed out
/// first among the edges that leave its source.
#[verifier::external_body]
pub(crate) fn graph_add_edge(g: &mut Graph<usize, usize>, a: usize, b: usize, weight: usize) -> (ix:
    usize)
    requires
        a < graph_nodes(*old(g)).len(),
        b < graph_nodes(*old(g)).len(),
        graph_edges(*old(g)).len() < u32::MAX,
    ensures
        graph_nodes(*final(g)) == graph_nodes(*old(g)),
        graph_edges(*final(g)) == graph_edges(*old(g)).push((a, b, weight)),
        graph_out(*final(g), a as int) == seq![ix] + graph_out(*old(g), a as int),
        forall|x: int| x != a ==> #[trigger] graph_out(*final(g), x) == graph_out(*old(g), x),
        ix == graph_edges(*old(g)).len(),
{
    g.add_edge(NodeIndex::new(a), NodeIndex::new(b), weight).index()
}

/// `Graph::node_weight`.
#[verifier::external_body]
pub(crate) fn graph_node_weight(g: &Graph<usize, usize>, a: usize) -> (w: usize)
    requires
        a < graph_nodes(*g).len(),
    ensures
        w == graph_nodes(*g)[a as int],
{
    *g.node_weight(NodeIndex::new(a)).unwrap()
}

/// `Graph::edge_endpoints`.
#[verifier::external_body]
pub(crate) fn graph_edge_endpoints(g: &Graph<usize, usize>, e: usize) -> (r: (usize, usize))
    requires
        e < graph_edges(*g).len(),
    ensures
        r.0 == graph_edges(*g)[e as int].0,
        r.1 == graph_edges(*g)[e as int].1,
{
    let (s, t) = g.edge_endpoints(petgraph::graph::EdgeIndex::new(e)).unwrap();
    (s.index(), t.index())
}

/// `Graph::edge_weight`.
#[verifier::external_body]
pub(crate) fn graph_edge_weight(g: &Graph<usize, usize>, e: usize) -> (w: usize)
    requires
        e < graph_edges(*g).len(),
    ensures
        w == graph_edges(*g)[e as int].2,
{
    *g.edge_weight(petgraph::graph::EdgeIndex::new(e)).unwrap()
}

/// `Graph::edges_directed` with `Outgoing`: every edge that leaves the node,
/// each once.
#[verifier::external_body]
pub(crate) fn graph_out_edges(g: &Graph<usize, usize>, a: usize) -> (r: Vec<usize>)
    requires
        a < graph_nodes(*g).len(),
    ensures
        r@ == graph_out(*g, a as int),
        forall|k: int|
            0 <= k < r@.len() ==> #[trigger] r@[k] < graph_edges(*g).len() && graph_edges(
                *g,
            )[r@[k] as int].0 == a,
        forall|j: int, k: int| 0 <= j < k < r@.len() ==> #[trigger] r@[j] != #[trigger] r@[k],
        forall|e: usize|
            e < graph_edges(*g).len() && (#[trigger] graph_edges(*g)[e as int]).0 == a ==> r@.contains(e),
{
    g.edges_directed(NodeIndex::new(a), Direction::Outgoing).map(|e| e.id().index()).collect()
}

/// `Graph::externals` with `Incoming`: the nodes that no edge leads to, by
/// rising index.
#[verifier::external_body]
pub(crate) fn graph_sources(g: &Graph<usize, usize>) -> (r: Vec<usize>)
    ensures
        forall|j: int, k: int| 0 <= j < k < r@.len() ==> #[trigger] r@[j] < #[trigger] r@[k],
        forall|k: int| 0 <= k < r@.len() ==> #[trigger] r@[k] < graph_nodes(*g).len(),
        forall|a: usize|
            a < graph_nodes(*g).len() ==> (r@.contains(a) <==> #[trigger] is_source(
                graph_edges(*g),
                a as int,
            )),
{
    g.externals(Direction::Incoming).map(|n| n.index()).collect()
}

/// `Graph::remove_node`: the node leaves with every edge that touches it, and
/// the node that had the last index takes the freed index. Every other edge
/// stays, between the same nodes and with the same weight; edge indices may
/// change.
#[verifier::external_body]
pub(crate) fn graph_remove_node(g: &mut Graph<usize, usize>, a: usize)
    requires
        a < graph_nodes(*old(g)).len(),
    ensures
        graph_nodes(*final(g)) == graph_nodes(*old(g)).update(
            a as int,
            graph_nodes(*old(g)).last(),
        ).drop_last(),
        edges_without(
            graph_edges(*old(g)),
            graph_edges(*final(g)),
            a,
            graph_nodes(*old(g)).len() as int,
        ),
{
    g.remove_node(NodeIndex::new(a));
}

/// `petgraph::algo::toposort`: an order of all nodes in which every edge leads
/// forward, or else a node that lies on a cycle.
#[verifier::external_body]
pub(crate) fn graph_toposort(g: &Graph<usize, usize>) -> (r: Result<Vec<usize>, usize>)
    ensures
        r is Ok ==> is_topological(r->Ok_0@, graph_nodes(*g).len() as int, graph_edges(*g)),
        r is Err ==> r->Err_0 < graph_nodes(*g).len() && on_cycle(
            edge_rel(graph_edges(*g)),
            r->Err_0 as int,
        ),
{
    match toposort(g, None) {
        Ok(order) => Ok(order.into_iter().map(|n| n.index()).collect()),
        Err(cycle) => Err(cycle.node_id().index()),
    }
}

/// `petgraph::algo::tred::dag_to_toposorted_adjacency_list`: the graph over
/// ranks in place of node indices, and the rank of each node. The rank of a
/// node is its place in `order`. Each row stores its successors in rising
/// order.
#[verifier::external_body]
pub(crate) fn graph_ranked(g: &Graph<usize, usize>, order: &Vec<usize>) -> (r: (Ranked, Vec<usize>))
    requires
        is_topological(order@, graph_nodes(*g).len() as int, graph_edges(*g)),
    ensures
        r.1@.len() == order@.len(),
        list_rows(r.0).len() == order@.len(),
        forall|i: int| 0 <= i < order@.len() ==> r.1@[#[trigger] order@[i] as int] == i,
        rows_sorted(list_rows(r.0)),
        forall|a: int, b: int|
            0 <= a < order@.len() && 0 <= b < order@.len() ==> (#[trigger] in_row(
                list_rows(r.0),
                a,
                b,
            ) <==> has_edge(graph_edges(*g), order@[a] as int, order@[b] as int)),
{
    let order: Vec<NodeIndex> = order.iter().map(|i| NodeIndex::new(*i)).collect();
    let (inner, revmap) = dag_to_toposorted_adjacency_list::<_, NodeIndex>(g, &order);
    (Ranked { inner }, revmap.into_iter().map(|r| r.index()).collect())
}

/// `petgraph::algo::tred::dag_transitive_reduction_closure`, of which the
/// reduction is kept: the rows without every successor that can also be
/// reached over two edges or more.
#[verifier::external_body]
pub(crate) fn ranked_reduction(l: &Ranked) -> (r: Vec<Vec<usize>>)
    requires
        rows_sorted(list_rows(*l)),
    ensures
        r@.len() == list_rows(*l).len(),
        forall|a: int, b: int|
            0 <= a < r@.len() ==> ((exists|k: int| 0 <= k < r@[a]@.len() && #[trigger] r@[a]@[k] == b)
                <==> #[trigger] in_row(list_rows(*l), a, b) && !has_detour(
                row_rel(list_rows(*l)),
                a,
                b,
            )),
{
    let (reduction, _) = dag_transitive_reduction_closure(&l.inner);
    let n = petgraph::visit::NodeCount::node_count(&reduction);
    (0..n).map(|i| (&reduction).neighbors(NodeIndex::new(i)).map(|x| x.index()).collect()).collect()
}

/// `Graph::retain_edges`, keeping the edges that `keeps` finds in the reduced
/// rows: the nodes stay as they are, and an edge stays exactly when it is
/// kept.
#[verifier::external_body]
pub(crate) fn graph_retain_reduced(
    g: &mut Graph<usize, usize>,
    reduced: &Vec<Vec<usize>>,
    revmap: &Vec<usize>,
)
    requires
        revmap@.len() == graph_nodes(*old(g)).len(),
        forall|i: int| 0 <= i < revmap@.len() ==> #[trigger] revmap@[i] < reduced@.len(),
        forall|e: int|
            0 <= e < graph_edges(*old(g)).len() ==> (#[trigger] graph_edges(*old(g))[e]).0
                < revmap@.len() && graph_edges(*old(g))[e].1 < revmap@.len(),
    ensures
        graph_nodes(*final(g)) == graph_nodes(*old(g)),
        forall|i: int|
            0 <= i < graph_edges(*final(g)).len() ==> graph_edges(*old(g)).contains(
                #[trigger] graph_edges(*final(g))[i],
            ) && spec_keeps(
                reduced@,
                revmap@,
                graph_edges(*final(g))[i].0 as int,
                graph_edges(*final(g))[i].1 as int,
            ),
        forall|j: int|
            0 <= j < graph_edges(*old(g)).len() && spec_keeps(
                reduced@,
                revmap@,
                (#[trigger] graph_edges(*old(g))[j]).0 as int,
                graph_edges(*old(g))[j].1 as int,
            ) ==> graph_edges(*final(g)).contains(graph_edges(*old(g))[j]),
{
    g.retain_edges(
        |frozen, e|
            match frozen.edge_endpoints(e) {
                Some((s, t)) => keeps(reduced, revmap, s.index(), t.index()),
                None => false,
            },
    );
}

} // verus!
