//! The keyword graph: a `petgraph` graph of keywords (nodes) and weighted links (edges),
//! with a name index that keeps each keyword on one node.

use vstd::prelude::*;
use vstd::hash_map::StringHashMap;
use petgraph::graph::{EdgeIndex, Graph, NodeIndex};
use petgraph::Directed;

verus! {

broadcast use vstd::hash_map::group_hash_map_axioms;

#[verifier::external_type_specification]
#[verifier::external_body]
#[verifier::reject_recursive_types(N)]
#[verifier::reject_recursive_types(E)]
#[verifier::reject_recursive_types(Ty)]
#[verifier::reject_recursive_types(Ix)]
pub struct ExGraph<N, E, Ty, Ix>(Graph<N, E, Ty, Ix>);

#[verifier::external_type_specification]
#[verifier::external_body]
pub struct ExDirected(Directed);

/// The nodes of a `petgraph` graph, by index: the weight, and the first edge of its outgoing
/// and of its incoming edge list (`u32::MAX` for none).
pub uninterp spec fn petgraph_nodes(g: Graph<String, u32>) -> Seq<(Seq<char>, usize, usize)>;

/// The edges of a `petgraph` graph, by index: source, target, weight, and the next edge of the
/// source's outgoing and of the target's incoming edge list (`u32::MAX` for none).
pub uninterp spec fn petgraph_edges(g: Graph<String, u32>) -> Seq<(usize, usize, u32, usize, usize)>;

/// What petgraph's `Dot` debug-formats a graph as, with edge labels off, given the node
/// weights and the (source, target) of each edge in index order.
pub uninterp spec fn dot_text(nodes: Seq<Seq<char>>, edges: Seq<(usize, usize)>) -> Seq<char>;

/// The index petgraph uses for "no edge".
pub open spec fn no_edge() -> usize {
    0xffff_ffffusize
}

/// The head of node `a`'s outgoing (or incoming) edge list, `None` for a missing node or an
/// empty list.
pub open spec fn list_head(nodes: Seq<(Seq<char>, usize, usize)>, a: usize, outgoing: bool) -> Option<
    usize,
> {
    let head = if outgoing {
        nodes[a as int].1
    } else {
        nodes[a as int].2
    };
    if a < nodes.len() && head != no_edge() {
        Some(head)
    } else {
        None
    }
}

/// The successor of edge `e` in its outgoing (or incoming) list, `None` for a missing edge or
/// the end of the list.
pub open spec fn list_next(edges: Seq<(usize, usize, u32, usize, usize)>, e: usize, outgoing: bool) -> Option<
    usize,
> {
    let next = if outgoing {
        edges[e as int].3
    } else {
        edges[e as int].4
    };
    if e < edges.len() && next != no_edge() {
        Some(next)
    } else {
        None
    }
}

/// `Graph::node_count`: the number of nodes.
#[verifier::external_body]
fn pg_node_count(g: &Graph<String, u32>) -> (r: usize)
    ensures
        r == petgraph_nodes(*g).len(),
{
    g.node_count()
}

/// `Graph::edge_count`: the number of edges.
#[verifier::external_body]
fn pg_edge_count(g: &Graph<String, u32>) -> (r: usize)
    ensures
        r == petgraph_edges(*g).len(),
{
    g.edge_count()
}

/// `Graph::new`: no nodes, no edges.
#[verifier::external_body]
fn pg_new() -> (g: Graph<String, u32>)
    ensures
        petgraph_nodes(g) == Seq::<(Seq<char>, usize, usize)>::empty(),
        petgraph_edges(g) == Seq::<(usize, usize, u32, usize, usize)>::empty(),
{
    Graph::new()
}

/// `Graph::add_node`: appends the node with empty edge lists and returns its index; panics
/// when the node count has reached `u32::MAX`, which `requires` leaves out.
#[verifier::external_body]
fn pg_add_node(g: &mut Graph<String, u32>, weight: String) -> (r: usize)
    requires
        petgraph_nodes(*old(g)).len() < 0xffff_ffff,
    ensures
        r == petgraph_nodes(*old(g)).len(),
        petgraph_nodes(*final(g)) == petgraph_nodes(*old(g)).push((weight@, no_edge(), no_edge())),
        petgraph_edges(*final(g)) == petgraph_edges(*old(g)),
{
    g.add_node(weight).index()
}

/// `Graph::add_edge`: the new edge's index is the old edge count; it takes the heads of the
/// source's outgoing and the target's incoming lists as its successors and becomes both
/// heads. Panics on a missing node or when the edge count has reached `u32::MAX`, which
/// `requires` leaves out.
#[verifier::external_body]
fn pg_add_edge(g: &mut Graph<String, u32>, a: usize, b: usize, weight: u32) -> (r: usize)
    requires
        a < petgraph_nodes(*old(g)).len(),
        b < petgraph_nodes(*old(g)).len(),
        petgraph_edges(*old(g)).len() < 0xffff_ffff,
    ensures
        r == petgraph_edges(*old(g)).len(),
        ({
            let nodes = petgraph_nodes(*old(g));
            let n1 = nodes.update(a as int, (nodes[a as int].0, r, nodes[a as int].2));
            let n2 = n1.update(b as int, (n1[b as int].0, n1[b as int].1, r));
            &&& petgraph_nodes(*final(g)) == n2
            &&& petgraph_edges(*final(g)) == petgraph_edges(*old(g)).push(
                (a, b, weight, nodes[a as int].1, nodes[b as int].2),
            )
        }),
{
    g.add_edge(NodeIndex::new(a), NodeIndex::new(b), weight).index()
}

/// `Graph::first_edge`: the head of an existing node's outgoing (or incoming) edge list.
#[verifier::external_body]
fn pg_first_edge(g: &Graph<String, u32>, a: usize, outgoing: bool) -> (r: Option<usize>)
    requires
        a < petgraph_nodes(*g).len(),
    ensures
        r == list_head(petgraph_nodes(*g), a, outgoing),
{
    let dir = if outgoing {
        petgraph::Direction::Outgoing
    } else {
        petgraph::Direction::Incoming
    };
    g.first_edge(NodeIndex::new(a), dir).map(|e| e.index())
}

/// `Graph::next_edge`: the successor of an existing edge in its source's outgoing (or its
/// target's incoming) edge list.
#[verifier::external_body]
fn pg_next_edge(g: &Graph<String, u32>, e: usize, outgoing: bool) -> (r: Option<usize>)
    requires
        e < petgraph_edges(*g).len(),
    ensures
        r == list_next(petgraph_edges(*g), e, outgoing),
{
    let dir = if outgoing {
        petgraph::Direction::Outgoing
    } else {
        petgraph::Direction::Incoming
    };
    g.next_edge(EdgeIndex::new(e), dir).map(|e| e.index())
}

/// Indexing a graph by a node index: the node's weight; panics on a missing node.
#[verifier::external_body]
fn pg_node_weight(g: &Graph<String, u32>, a: usize) -> (r: &String)
    requires
        a < petgraph_nodes(*g).len(),
    ensures
        r@ == petgraph_nodes(*g)[a as int].0,
{
    &g[NodeIndex::new(a)]
}

/// Indexing a graph by an edge index: the edge's weight; panics on a missing edge.
#[verifier::external_body]
fn pg_edge_weight(g: &Graph<String, u32>, e: usize) -> (r: u32)
    requires
        e < petgraph_edges(*g).len(),
    ensures
        r == petgraph_edges(*g)[e as int].2,
{
    g[EdgeIndex::new(e)]
}

/// `Graph::edge_endpoints`: source and target of an existing edge.
#[verifier::external_body]
fn pg_edge_endpoints(g: &Graph<String, u32>, e: usize) -> (r: Option<(usize, usize)>)
    requires
        e < petgraph_edges(*g).len(),
    ensures
        r == Some((petgraph_edges(*g)[e as int].0, petgraph_edges(*g)[e as int].1)),
{
    g.edge_endpoints(EdgeIndex::new(e)).map(|(a, b)| (a.index(), b.index()))
}

/// `format!("{:?}", Dot::with_config(g, &[Config::EdgeNoLabel]))`.
#[verifier::external_body]
fn pg_dot(g: &Graph<String, u32>) -> (r: String)
    ensures
        r@ == dot_text(
            petgraph_nodes(*g).map_values(|n: (Seq<char>, usize, usize)| n.0),
            petgraph_edges(*g).map_values(|e: (usize, usize, u32, usize, usize)| (e.0, e.1)),
        ),
{
    format!("{:?}", petgraph::dot::Dot::with_config(g, &[petgraph::dot::Config::EdgeNoLabel]))
}

/// The latest edge before index `before` whose source (`outgoing`) or target is `a`;
/// `no_edge()` when there is none.
pub open spec fn latest_edge(
    edges: Seq<(usize, usize, u32)>,
    a: usize,
    before: int,
    outgoing: bool,
) -> usize
    decreases before,
{
    if before <= 0 {
        no_edge()
    } else if (if outgoing {
        edges[before - 1].0
    } else {
        edges[before - 1].1
    }) == a {
        (before - 1) as usize
    } else {
        latest_edge(edges, a, before - 1, outgoing)
    }
}

/// The edges before index `before` whose source (`outgoing`) or target is `a`, latest first:
/// the order in which petgraph walks them.
pub open spec fn edges_of(edges: Seq<(usize, usize, u32)>, a: usize, before: int, outgoing: bool) -> Seq<
    usize,
>
    decreases before,
{
    if before <= 0 {
        Seq::empty()
    } else if (if outgoing {
        edges[before - 1].0
    } else {
        edges[before - 1].1
    }) == a {
        seq![(before - 1) as usize] + edges_of(edges, a, before - 1, outgoing)
    } else {
        edges_of(edges, a, before - 1, outgoing)
    }
}

/// The plain contents of a keyword graph.
pub struct GraphView {
    /// Node names, by node index.
    pub nodes: Seq<Seq<char>>,
    /// Edges (source, target, weight), by edge index.
    pub edges: Seq<(usize, usize, u32)>,
}

/// Why a graph could not grow: petgraph's `u32` indices are used up.
#[derive(Clone, Copy, Debug, PartialEq, Eq, Structural)]
pub struct GraphFull;

/// A keyword graph: distinct names on nodes, weighted edges between them.
pub struct KeywordGraph {
    graph: Graph<String, u32>,
    index: StringHashMap<usize>,
}

impl View for KeywordGraph {
    type V = GraphView;

    closed spec fn view(&self) -> GraphView {
        GraphView {
            nodes: petgraph_nodes(self.graph).map_values(|n: (Seq<char>, usize, usize)| n.0),
            edges: petgraph_edges(self.graph).map_values(
                |e: (usize, usize, u32, usize, usize)| (e.0, e.1, e.2),
            ),
        }
    }
}

/// The position of `name` among the nodes.
pub open spec fn node_position(v: GraphView, name: Seq<char>) -> int {
    choose|i: int| 0 <= i < v.nodes.len() && v.nodes[i] == name
}

/// The graph with a node for `name`, added last if there was none.
pub open spec fn with_node(v: GraphView, name: Seq<char>) -> GraphView {
    if v.nodes.contains(name) {
        v
    } else {
        GraphView { nodes: v.nodes.push(name), ..v }
    }
}

/// The graph with an edge of weight `w` from the node of `from` to the node of `to`, the
/// nodes being added first where they are missing.
pub open spec fn with_link(v: GraphView, from: Seq<char>, to: Seq<char>, w: u32) -> GraphView {
    let v2 = with_node(with_node(v, from), to);
    GraphView {
        edges: v2.edges.push(
            (node_position(v2, from) as usize, node_position(v2, to) as usize, w),
        ),
        ..v2
    }
}

/// What is left of the graph when adding a link fails because petgraph's indices run out:
/// the end nodes that could still be added, in turn.
pub open spec fn failed_link(v: GraphView, from: Seq<char>, to: Seq<char>) -> GraphView {
    let v1 = with_node(v, from);
    let v2 = with_node(v1, to);
    if v1.nodes.len() > 0xffff_ffff {
        v
    } else if v2.nodes.len() > 0xffff_ffff {
        v1
    } else {
        v2
    }
}

/// There is room for both end nodes of a link and for its edge.
pub open spec fn room_for(v: GraphView, from: Seq<char>, to: Seq<char>) -> bool {
    &&& with_node(with_node(v, from), to).nodes.len() <= 0xffff_ffff
    &&& v.edges.len() < 0xffff_ffff
}

/// Node names are distinct.
pub open spec fn names_distinct(v: GraphView) -> bool {
    forall|i: int, j: int| 0 <= i < j < v.nodes.len() ==> v.nodes[i] != v.nodes[j]
}

impl KeywordGraph {
    /// The name index agrees with the nodes, edges join existing nodes, and each list head
    /// and successor link of petgraph's edge lists points at the latest earlier edge.
    pub closed spec fn wf(&self) -> bool {
        let nodes = petgraph_nodes(self.graph);
        let edges = petgraph_edges(self.graph);
        &&& nodes.len() <= 0xffff_ffff
        &&& edges.len() <= 0xffff_ffff
        &&& forall|i: int|
            0 <= i < nodes.len() ==> #[trigger] self.index@.contains_key(nodes[i].0)
                && self.index@[nodes[i].0] == i
        &&& forall|k: Seq<char>| #[trigger]
            self.index@.contains_key(k) ==> self.index@[k] < nodes.len() && nodes[self.index@[k] as int].0
                == k
        &&& forall|i: int|
            0 <= i < nodes.len() ==> (#[trigger] nodes[i]).1 == latest_edge(
                self@.edges,
                i as usize,
                edges.len() as int,
                true,
            ) && nodes[i].2 == latest_edge(self@.edges, i as usize, edges.len() as int, false)
        &&& forall|e: int|
            0 <= e < edges.len() ==> (#[trigger] edges[e]).0 < nodes.len() && edges[e].1
                < nodes.len() && edges[e].3 == latest_edge(self@.edges, edges[e].0, e, true)
                && edges[e].4 == latest_edge(self@.edges, edges[e].1, e, false)
    }

    pub proof fn lemma_wf(&self)
        requires
            self.wf(),
        ensures
            names_distinct(self@),
            self@.nodes.len() <= 0xffff_ffff,
            self@.edges.len() <= 0xffff_ffff,
            forall|e: int|
                0 <= e < self@.edges.len() ==> (#[trigger] self@.edges[e]).0 < self@.nodes.len()
                    && self@.edges[e].1 < self@.nodes.len(),
    {
        let nodes = petgraph_nodes(self.graph);
        assert forall|i: int, j: int| 0 <= i < j < self@.nodes.len() implies self@.nodes[i]
            != self@.nodes[j] by {
            assert(self.index@.contains_key(nodes[i].0));
            assert(self.index@.contains_key(nodes[j].0));
        }
        assert forall|e: int| 0 <= e < self@.edges.len() implies (#[trigger] self@.edges[e]).0
            < self@.nodes.len() && self@.edges[e].1 < self@.nodes.len() by {
            assert(petgraph_edges(self.graph)[e].0 < nodes.len());
        }
    }

    pub fn new() -> (g: KeywordGraph)
        ensures
            g.wf(),
            g@.nodes == Seq::<Seq<char>>::empty(),
            g@.edges == Seq::<(usize, usize, u32)>::empty(),
    {
        let g = KeywordGraph { graph: pg_new(), index: StringHashMap::new() };
        assert(g@.nodes =~= Seq::<Seq<char>>::empty());
        assert(g@.edges =~= Seq::<(usize, usize, u32)>::empty());
        g
    }

    pub fn node_count(&self) -> (n: usize)
        requires
            self.wf(),
        ensures
            n == self@.nodes.len(),
    {
        pg_node_count(&self.graph)
    }

    /// The node that carries `name`, if any.
    pub fn find(&self, name: &str) -> (r: Option<usize>)
        requires
            self.wf(),
        ensures
            match r {
                Some(i) => i < self@.nodes.len() && self@.nodes[i as int] == name@,
                None => !self@.nodes.contains(name@),
            },
    {
        match self.index.get(name) {
            Some(i) => Some(*i),
            None => {
                assert(!self@.nodes.contains(name@)) by {
                    if self@.nodes.contains(name@) {
                        let j = choose|j: int| 0 <= j < self@.nodes.len() && self@.nodes[j] == name@;
                        assert(self.index@.contains_key(petgraph_nodes(self.graph)[j].0));
                    }
                }
                None
            },
        }
    }

    /// The name of node `a`.
    pub fn name(&self, a: usize) -> (r: &String)
        requires
            self.wf(),
            a < self@.nodes.len(),
        ensures
            r@ == self@.nodes[a as int],
    {
        pg_node_weight(&self.graph, a)
    }
}


/// The end point of an edge on the side that the direction looks at.
pub open spec fn end_of(e: (usize, usize, u32), outgoing: bool) -> usize {
    if outgoing {
        e.0
    } else {
        e.1
    }
}

proof fn lemma_latest_prefix(
    edges: Seq<(usize, usize, u32)>,
    x: (usize, usize, u32),
    a: usize,
    before: int,
    outgoing: bool,
)
    requires
        before <= edges.len(),
    ensures
        latest_edge(edges.push(x), a, before, outgoing) == latest_edge(edges, a, before, outgoing),
    decreases before,
{
    if before > 0 {
        lemma_latest_prefix(edges, x, a, before - 1, outgoing);
    }
}

proof fn lemma_latest_absent(edges: Seq<(usize, usize, u32)>, a: usize, before: int, outgoing: bool)
    requires
        before <= edges.len(),
        forall|e: int| 0 <= e < before ==> end_of(#[trigger] edges[e], outgoing) != a,
    ensures
        latest_edge(edges, a, before, outgoing) == no_edge(),
    decreases before,
{
    if before > 0 {
        lemma_latest_absent(edges, a, before - 1, outgoing);
    }
}

/// The walk from the latest edge before `k` is that edge followed by the walk from it.
proof fn lemma_edges_of_step(edges: Seq<(usize, usize, u32)>, a: usize, k: int, outgoing: bool)
    requires
        0 <= k <= edges.len(),
        k <= 0xffff_ffff,
    ensures
        ({
            let l = latest_edge(edges, a, k, outgoing);
            &&& l == no_edge() ==> edges_of(edges, a, k, outgoing) == Seq::<usize>::empty()
            &&& l != no_edge() ==> l < k && end_of(edges[l as int], outgoing) == a && edges_of(
                edges,
                a,
                k,
                outgoing,
            ) == seq![l] + edges_of(edges, a, l as int, outgoing)
        }),
    decreases k,
{
    if k > 0 {
        lemma_edges_of_step(edges, a, k - 1, outgoing);
    }
}

/// The walked edges come before `before`, and lead from `a` (`outgoing`) or to `a`.
pub proof fn lemma_edges_of_bounded(
    edges: Seq<(usize, usize, u32)>,
    a: usize,
    before: int,
    outgoing: bool,
)
    requires
        before <= edges.len(),
        before <= usize::MAX,
    ensures
        forall|i: int|
            0 <= i < edges_of(edges, a, before, outgoing).len() ==> 0 <= #[trigger] edges_of(
                edges,
                a,
                before,
                outgoing,
            )[i] < before && end_of(edges[edges_of(edges, a, before, outgoing)[i] as int], outgoing)
                == a,
    decreases before,
{
    if before > 0 {
        lemma_edges_of_bounded(edges, a, before - 1, outgoing);
        let rest = edges_of(edges, a, before - 1, outgoing);
        if end_of(edges[before - 1], outgoing) == a {
            assert forall|i: int|
                0 <= i < edges_of(edges, a, before, outgoing).len() implies 0 <= #[trigger] edges_of(
                edges,
                a,
                before,
                outgoing,
            )[i] < before && end_of(edges[edges_of(edges, a, before, outgoing)[i] as int], outgoing)
                == a by {
                if i > 0 {
                    assert(edges_of(edges, a, before, outgoing)[i] == rest[i - 1]);
                } else {
                    assert(edges_of(edges, a, before, outgoing)[0] == (before - 1) as usize);
                }
            }
        }
    }
}

proof fn lemma_with_node(v: GraphView, name: Seq<char>)
    requires
        names_distinct(v),
    ensures
        names_distinct(with_node(v, name)),
        with_node(v, name).nodes.contains(name),
        with_node(v, name).edges == v.edges,
        with_node(v, name).nodes.len() >= v.nodes.len(),
        forall|i: int| 0 <= i < v.nodes.len() ==> #[trigger] with_node(v, name).nodes[i] == v.nodes[i],
{
    if !v.nodes.contains(name) {
        let n = with_node(v, name).nodes;
        assert(n[v.nodes.len() as int] == name);
        assert forall|i: int, j: int| 0 <= i < j < n.len() implies n[i] != n[j] by {
            if j == v.nodes.len() {
                assert(v.nodes[i] == n[i]);
            }
        }
    }
}

/// Adding a link, read back: the graph still has one node per name, the old nodes keep
/// their indices, each end has exactly one node, and the new edge, added last, joins those
/// nodes with the given weight.
pub proof fn lemma_link_read_back(v: GraphView, from: Seq<char>, to: Seq<char>, w: u32)
    requires
        names_distinct(v),
    ensures
        ({
            let g = with_link(v, from, to, w);
            let a = node_position(g, from);
            let b = node_position(g, to);
            &&& names_distinct(g)
            &&& 0 <= a < g.nodes.len() && g.nodes[a] == from
            &&& 0 <= b < g.nodes.len() && g.nodes[b] == to
            &&& forall|i: int| 0 <= i < g.nodes.len() && g.nodes[i] == from ==> i == a
            &&& forall|i: int| 0 <= i < g.nodes.len() && g.nodes[i] == to ==> i == b
            &&& forall|i: int| 0 <= i < v.nodes.len() ==> #[trigger] g.nodes[i] == v.nodes[i]
            &&& g.edges == v.edges.push((a as usize, b as usize, w))
        }),
{
    let v1 = with_node(v, from);
    let v2 = with_node(v1, to);
    lemma_with_node(v, from);
    lemma_with_node(v1, to);
    assert(v2.nodes.contains(from)) by {
        let j = choose|j: int| 0 <= j < v1.nodes.len() && v1.nodes[j] == from;
        assert(v2.nodes[j] == from);
    }
    let g = with_link(v, from, to, w);
    assert(g.nodes == v2.nodes);
    assert forall|i: int| 0 <= i < v.nodes.len() implies #[trigger] g.nodes[i] == v.nodes[i] by {
        assert(v2.nodes[i] == v1.nodes[i]);
    }
}

impl KeywordGraph {
    /// The node named `name`, added without edges when there is none.
    pub fn ensure_node(&mut self, name: &str) -> (r: Result<usize, GraphFull>)
        requires
            old(self).wf(),
        ensures
            final(self).wf(),
            match r {
                Ok(i) => final(self)@ == with_node(old(self)@, name@) && i < final(self)@.nodes.len()
                    && final(self)@.nodes[i as int] == name@,
                Err(_) => final(self)@ == old(self)@ && !old(self)@.nodes.contains(name@)
                    && old(self)@.nodes.len() == 0xffff_ffff,
            },
    {
        match self.find(name) {
            Some(i) => Ok(i),
            None => {
                let n = pg_node_count(&self.graph);
                if n == 0xffff_ffff {
                    return Err(GraphFull);
                }
                let ghost old_edges = self@.edges;
                let i = pg_add_node(&mut self.graph, name.to_owned());
                self.index.insert(name.to_owned(), i);
                proof {
                    let nodes = petgraph_nodes(self.graph);
                    assert(self@.edges =~= old_edges);
                    assert(self@.nodes =~= old(self)@.nodes.push(name@));
                    lemma_latest_absent(self@.edges, i, self@.edges.len() as int, true);
                    lemma_latest_absent(self@.edges, i, self@.edges.len() as int, false);
                    assert forall|j: int| 0 <= j < nodes.len() implies #[trigger]
                        self.index@.contains_key(nodes[j].0) && self.index@[nodes[j].0] == j by {
                        if j < i {
                            assert(old(self).index@.contains_key(petgraph_nodes(old(self).graph)[j].0));
                            assert(nodes[j].0 != name@) by {
                                assert(old(self)@.nodes[j] == nodes[j].0);
                            }
                        }
                    }
                    assert forall|j: int| 0 <= j < nodes.len() implies (#[trigger] nodes[j]).1
                        == latest_edge(self@.edges, j as usize, self@.edges.len() as int, true)
                        && nodes[j].2 == latest_edge(
                        self@.edges,
                        j as usize,
                        self@.edges.len() as int,
                        false,
                    ) by {
                        if j < i {
                            assert(nodes[j] == petgraph_nodes(old(self).graph)[j]);
                        }
                    }
                }
                Ok(i)
            },
        }
    }

    /// Adds an edge of weight `w` from node `a` to node `b`.
    pub fn add_edge(&mut self, a: usize, b: usize, w: u32) -> (r: Result<usize, GraphFull>)
        requires
            old(self).wf(),
            a < old(self)@.nodes.len(),
            b < old(self)@.nodes.len(),
        ensures
            final(self).wf(),
            match r {
                Ok(e) => e == old(self)@.edges.len() && final(self)@ == (GraphView {
                    edges: old(self)@.edges.push((a, b, w)),
                    ..old(self)@
                }),
                Err(_) => final(self)@ == old(self)@ && old(self)@.edges.len() == 0xffff_ffff,
            },
    {
        let m = self.edge_count();
        if m == 0xffff_ffff {
            return Err(GraphFull);
        }
        let ghost old_edges = self@.edges;
        let ghost old_nodes = petgraph_nodes(self.graph);
        let ghost old_pe = petgraph_edges(self.graph);
        let e = pg_add_edge(&mut self.graph, a, b, w);
        proof {
            let nodes = petgraph_nodes(self.graph);
            let pe = petgraph_edges(self.graph);
            let x = (a, b, w);
            assert(self@.edges =~= old_edges.push(x));
            assert(self@.nodes =~= old(self)@.nodes);
            assert forall|i: int| 0 <= i < nodes.len() implies (#[trigger] nodes[i]).1
                == latest_edge(self@.edges, i as usize, self@.edges.len() as int, true)
                && nodes[i].2 == latest_edge(
                self@.edges,
                i as usize,
                self@.edges.len() as int,
                false,
            ) by {
                assert(old_nodes[i] == petgraph_nodes(old(self).graph)[i]);
                lemma_latest_prefix(old_edges, x, i as usize, old_edges.len() as int, true);
                lemma_latest_prefix(old_edges, x, i as usize, old_edges.len() as int, false);
            }
            assert forall|k: int| 0 <= k < pe.len() implies (#[trigger] pe[k]).0 < nodes.len()
                && pe[k].1 < nodes.len() && pe[k].3 == latest_edge(self@.edges, pe[k].0, k, true)
                && pe[k].4 == latest_edge(self@.edges, pe[k].1, k, false) by {
                if k < old_pe.len() {
                    assert(pe[k] == old_pe[k]);
                    assert(old_pe[k] == petgraph_edges(old(self).graph)[k]);
                    lemma_latest_prefix(old_edges, x, pe[k].0, k, true);
                    lemma_latest_prefix(old_edges, x, pe[k].1, k, false);
                } else {
                    assert(old_nodes[a as int] == petgraph_nodes(old(self).graph)[a as int]);
                    assert(old_nodes[b as int] == petgraph_nodes(old(self).graph)[b as int]);
                    lemma_latest_prefix(old_edges, x, a, k, true);
                    lemma_latest_prefix(old_edges, x, b, k, false);
                }
            }
            assert forall|i: int| 0 <= i < nodes.len() implies #[trigger]
                self.index@.contains_key(nodes[i].0) && self.index@[nodes[i].0] == i by {
                assert(nodes[i].0 == old_nodes[i].0);
                assert(old_nodes[i] == petgraph_nodes(old(self).graph)[i]);
            }
            assert forall|k: Seq<char>| #[trigger] self.index@.contains_key(k) implies
                self.index@[k] < nodes.len() && nodes[self.index@[k] as int].0 == k by {
                assert(old_nodes[self.index@[k] as int] == petgraph_nodes(old(self).graph)[self.index@[k] as int]);
            }
        }
        Ok(e)
    }

    /// The number of edges.
    pub fn edge_count(&self) -> (m: usize)
        requires
            self.wf(),
        ensures
            m == self@.edges.len(),
    {
        pg_edge_count(&self.graph)
    }

    /// Adds an edge of weight `w` from the node named `from` to the node named `to`, adding
    /// either node first where it is missing.
    pub fn add_link(&mut self, from: &str, to: &str, w: u32) -> (r: Result<(), GraphFull>)
        requires
            old(self).wf(),
        ensures
            final(self).wf(),
            r is Ok <==> room_for(old(self)@, from@, to@),
            r is Ok ==> final(self)@ == with_link(old(self)@, from@, to@, w),
            r is Err ==> final(self)@ == failed_link(old(self)@, from@, to@),
    {
        proof {
            self.lemma_wf();
        }
        let ghost v0 = self@;
        let a = match self.ensure_node(from) {
            Ok(a) => a,
            Err(e) => {
                return Err(e);
            },
        };
        let ghost v1 = self@;
        proof {
            self.lemma_wf();
        }
        let b = match self.ensure_node(to) {
            Ok(b) => b,
            Err(e) => {
                return Err(e);
            },
        };
        let ghost v2 = self@;
        proof {
            self.lemma_wf();
            assert(v2.nodes[a as int] == from@) by {
                if !v1.nodes.contains(to@) {
                    assert(v2.nodes == v1.nodes.push(to@));
                }
            }
            assert(node_position(v2, from@) == a);
            assert(node_position(v2, to@) == b);
            assert(v2 == with_node(with_node(v0, from@), to@));
            assert(v2.edges == v0.edges);
            assert(v2.nodes.len() <= 0xffff_ffff);
        }
        match self.add_edge(a, b, w) {
            Ok(_) => {
                proof {
                    self.lemma_wf();
                    assert(self@.edges.len() == v2.edges.len() + 1);
                }
                Ok(())
            },
            Err(e) => Err(e),
        }
    }

    /// The edges of node `a`, outgoing or incoming, in the order petgraph walks them: latest
    /// first.
    pub fn edge_list(&self, a: usize, outgoing: bool) -> (r: Vec<usize>)
        requires
            self.wf(),
        ensures
            r@ == edges_of(self@.edges, a, self@.edges.len() as int, outgoing),
    {
        let ghost edges = self@.edges;
        let ghost mut k: int = edges.len() as int;
        let mut out: Vec<usize> = Vec::new();
        if a >= pg_node_count(&self.graph) {
            proof {
                assert forall|e: int| 0 <= e < k implies end_of(#[trigger] edges[e], outgoing) != a by {
                    assert(petgraph_edges(self.graph)[e].0 < petgraph_nodes(self.graph).len());
                }
                lemma_latest_absent(edges, a, k, outgoing);
                lemma_edges_of_step(edges, a, k, outgoing);
                assert(out@ =~= edges_of(edges, a, k, outgoing));
            }
            return out;
        }
        let mut cur = pg_first_edge(&self.graph, a, outgoing);
        proof {
            lemma_edges_of_step(edges, a, k, outgoing);
        }
        while cur.is_some()
            invariant
                self.wf(),
                edges == self@.edges,
                0 <= k <= edges.len(),
                cur == (if latest_edge(edges, a, k, outgoing) == no_edge() {
                    None::<usize>
                } else {
                    Some(latest_edge(edges, a, k, outgoing))
                }),
                out@ + edges_of(edges, a, k, outgoing) == edges_of(
                    edges,
                    a,
                    edges.len() as int,
                    outgoing,
                ),
            decreases k,
        {
            let e = cur.unwrap();
            proof {
                lemma_edges_of_step(edges, a, k, outgoing);
            }
            out.push(e);
            cur = pg_next_edge(&self.graph, e, outgoing);
            proof {
                let pe = petgraph_edges(self.graph);
                assert(pe[e as int].0 == edges[e as int].0);
                assert(pe[e as int].1 == edges[e as int].1);
                k = e as int;
                lemma_edges_of_step(edges, a, k, outgoing);
                assert(out@ + edges_of(edges, a, k, outgoing) =~= (out@.drop_last() + (seq![e]
                    + edges_of(edges, a, k, outgoing))));
            }
        }
        proof {
            lemma_edges_of_step(edges, a, k, outgoing);
            assert(out@ =~= out@ + edges_of(edges, a, k, outgoing));
        }
        out
    }

    /// Source, target and weight of edge `e`.
    pub fn edge(&self, e: usize) -> (r: (usize, usize, u32))
        requires
            self.wf(),
            e < self@.edges.len(),
        ensures
            r == self@.edges[e as int],
    {
        let (s, t) = pg_edge_endpoints(&self.graph, e).unwrap();
        let w = pg_edge_weight(&self.graph, e);
        (s, t, w)
    }

    /// The graph in Graphviz dot form, as petgraph writes it with edge labels off.
    pub fn to_dot(&self) -> (r: String)
        requires
            self.wf(),
        ensures
            r@ == dot_text(
                self@.nodes,
                self@.edges.map_values(|e: (usize, usize, u32)| (e.0, e.1)),
            ),
    {
        let r = pg_dot(&self.graph);
        proof {
            assert(petgraph_nodes(self.graph).map_values(|n: (Seq<char>, usize, usize)| n.0)
                =~= self@.nodes);
            assert(petgraph_edges(self.graph).map_values(
                |e: (usize, usize, u32, usize, usize)| (e.0, e.1),
            ) =~= self@.edges.map_values(|e: (usize, usize, u32)| (e.0, e.1)));
        }
        r
    }
}

} // verus!
