//! The neighbour search: from a keyword, walk its outgoing and then its incoming links, each
//! list heaviest first, depth first, down to a depth limit, and print each link, stream it to
//! Gephi, or collect it into a result graph.

use vstd::prelude::*;

use crate::gephi::Gephi;
use crate::graph::{GraphView, KeywordGraph, edges_of, end_of, lemma_edges_of_bounded, node_position, with_node};
use crate::text::{decimal, lemma_decimal_reads_back, push_decimal, u32_from_text};
use vstd::utf8::encode_utf8;
use vstd::string::StringExecFns;

verus! {

/// One step of the walk.
pub enum Visit {
    /// Edge `edge` of node `from`, outgoing or incoming, leading to node `to`.
    Edge { outgoing: bool, from: usize, edge: usize, to: usize },
    /// The end of one of a node's edge lists.
    EndOfList,
}

/// The walk from node `a` at depth `depth`: nothing at the depth limit or at a stop word;
/// otherwise its outgoing edges, an end mark, its incoming edges, an end mark, each list
/// heaviest first. Each edge to
/// another node is followed by the walk from that node one level deeper.
pub open spec fn visits(v: GraphView, stop: Seq<Seq<char>>, a: usize, depth: int, max: int) -> Seq<
    Visit,
>
    decreases max - depth + 1, 0int,
{
    if depth >= max || stop.contains(v.nodes[a as int]) {
        Seq::empty()
    } else {
        visits_list(v, stop, a, depth, max, neighbor_list(v, a, true), true) + seq![Visit::EndOfList]
            + visits_list(v, stop, a, depth, max, neighbor_list(v, a, false), false) + seq![
            Visit::EndOfList,
        ]
    }
}

/// The other end of edge `e` seen from the side the direction looks at.
pub open spec fn far_end(v: GraphView, e: usize, outgoing: bool) -> usize {
    if outgoing {
        v.edges[e as int].1
    } else {
        v.edges[e as int].0
    }
}

/// The walk over the edges `list` of node `a`.
pub open spec fn visits_list(
    v: GraphView,
    stop: Seq<Seq<char>>,
    a: usize,
    depth: int,
    max: int,
    list: Seq<usize>,
    outgoing: bool,
) -> Seq<Visit>
    decreases max - depth, list.len(),
{
    if list.len() == 0 {
        Seq::empty()
    } else {
        let e = list[0];
        let other = far_end(v, e, outgoing);
        let here = if other != a {
            seq![Visit::Edge { outgoing, from: a, edge: e, to: other }] + visits(
                v,
                stop,
                other,
                depth + 1,
                max,
            )
        } else {
            Seq::empty()
        };
        here + visits_list(v, stop, a, depth, max, list.drop_first(), outgoing)
    }
}

/// The weight of edge `e`.
pub open spec fn weight(v: GraphView, e: usize) -> u32 {
    v.edges[e as int].2
}

/// `s` with edge `e` placed after the leading edges at least as heavy as `e`.
pub open spec fn insert_by_weight(v: GraphView, e: usize, s: Seq<usize>) -> Seq<usize>
    decreases s.len(),
{
    if s.len() == 0 {
        seq![e]
    } else if weight(v, s[0]) >= weight(v, e) {
        seq![s[0]] + insert_by_weight(v, e, s.drop_first())
    } else {
        seq![e] + s
    }
}

/// The edges of `list`, heaviest first; edges of equal weight keep their order in `list`.
pub open spec fn by_weight(v: GraphView, list: Seq<usize>) -> Seq<usize>
    decreases list.len(),
{
    if list.len() == 0 {
        Seq::empty()
    } else {
        insert_by_weight(v, list.last(), by_weight(v, list.drop_last()))
    }
}

/// The outgoing (or incoming) edges of node `a` in the order the search takes them:
/// heaviest first, and among equal weights in the order petgraph walks them.
pub open spec fn neighbor_list(v: GraphView, a: usize, outgoing: bool) -> Seq<usize> {
    by_weight(v, edges_of(v.edges, a, v.edges.len() as int, outgoing))
}

/// The weights along `s` never increase.
pub open spec fn heaviest_first(v: GraphView, s: Seq<usize>) -> bool {
    forall|i: int, j: int| 0 <= i < j < s.len() ==> weight(v, #[trigger] s[i]) >= weight(v, #[trigger] s[j])
}

/// Inserting at the first position whose edge is lighter than `e`.
proof fn lemma_insert_at(v: GraphView, e: usize, s: Seq<usize>, p: int)
    requires
        0 <= p <= s.len(),
        forall|i: int| 0 <= i < p ==> weight(v, #[trigger] s[i]) >= weight(v, e),
        p == s.len() || weight(v, s[p]) < weight(v, e),
    ensures
        insert_by_weight(v, e, s) == s.insert(p, e),
    decreases s.len(),
{
    if s.len() == 0 {
        assert(s.insert(p, e) =~= seq![e]);
    } else if p == 0 {
        assert(s.insert(p, e) =~= seq![e] + s);
    } else {
        let t = s.drop_first();
        assert forall|i: int| 0 <= i < p - 1 implies weight(v, #[trigger] t[i]) >= weight(v, e) by {
            assert(t[i] == s[i + 1]);
        }
        lemma_insert_at(v, e, t, p - 1);
        assert(s.insert(p, e) =~= seq![s[0]] + t.insert(p - 1, e));
    }
}

proof fn lemma_insert_by_weight(v: GraphView, e: usize, s: Seq<usize>)
    requires
        heaviest_first(v, s),
    ensures
        heaviest_first(v, insert_by_weight(v, e, s)),
        insert_by_weight(v, e, s).len() == s.len() + 1,
        forall|x: usize| #[trigger] insert_by_weight(v, e, s).contains(x) <==> (s.contains(x) || x == e),
    decreases s.len(),
{
    let r = insert_by_weight(v, e, s);
    if s.len() == 0 {
        assert(r =~= seq![e]);
        assert(r[0] == e);
    } else if weight(v, s[0]) >= weight(v, e) {
        let t = s.drop_first();
        assert forall|i: int, j: int| 0 <= i < j < t.len() implies weight(v, #[trigger] t[i]) >= weight(
            v,
            #[trigger] t[j],
        ) by {
            assert(t[i] == s[i + 1] && t[j] == s[j + 1]);
        }
        lemma_insert_by_weight(v, e, t);
        let u = insert_by_weight(v, e, t);
        assert(r == seq![s[0]] + u);
        assert forall|j: int| 0 <= j < u.len() implies weight(v, s[0]) >= weight(v, #[trigger] u[j]) by {
            if u[j] == e {
            } else {
                assert(u.contains(u[j]));
                assert(t.contains(u[j]));
                let k = choose|k: int| 0 <= k < t.len() && t[k] == u[j];
                assert(s[k + 1] == t[k]);
            }
        }
        assert forall|i: int, j: int| 0 <= i < j < r.len() implies weight(v, #[trigger] r[i]) >= weight(
            v,
            #[trigger] r[j],
        ) by {
            if i == 0 {
                assert(r[j] == u[j - 1]);
            } else {
                assert(r[i] == u[i - 1] && r[j] == u[j - 1]);
            }
        }
        assert forall|x: usize| #[trigger] r.contains(x) <==> (s.contains(x) || x == e) by {
            if r.contains(x) {
                let k = choose|k: int| 0 <= k < r.len() && r[k] == x;
                if k > 0 {
                    assert(u[k - 1] == x);
                    assert(u.contains(x));
                    if t.contains(x) {
                        let m = choose|m: int| 0 <= m < t.len() && t[m] == x;
                        assert(s[m + 1] == x);
                    }
                } else {
                    assert(s[0] == x);
                }
            }
            if s.contains(x) {
                let k = choose|k: int| 0 <= k < s.len() && s[k] == x;
                if k > 0 {
                    assert(t[k - 1] == x);
                    assert(t.contains(x));
                    assert(u.contains(x));
                    let m = choose|m: int| 0 <= m < u.len() && u[m] == x;
                    assert(r[m + 1] == x);
                } else {
                    assert(r[0] == x);
                }
            }
            if x == e {
                assert(u.contains(e));
                let m = choose|m: int| 0 <= m < u.len() && u[m] == e;
                assert(r[m + 1] == e);
            }
        }
    } else {
        assert(r == seq![e] + s);
        assert forall|i: int, j: int| 0 <= i < j < r.len() implies weight(v, #[trigger] r[i]) >= weight(
            v,
            #[trigger] r[j],
        ) by {
            if i == 0 {
                assert(r[j] == s[j - 1]);
                if j > 1 {
                    assert(weight(v, s[0]) >= weight(v, s[j - 1]));
                }
            } else {
                assert(r[i] == s[i - 1] && r[j] == s[j - 1]);
            }
        }
        assert forall|x: usize| #[trigger] r.contains(x) <==> (s.contains(x) || x == e) by {
            if r.contains(x) {
                let k = choose|k: int| 0 <= k < r.len() && r[k] == x;
                if k > 0 {
                    assert(s[k - 1] == x);
                }
            }
            if s.contains(x) {
                let k = choose|k: int| 0 <= k < s.len() && s[k] == x;
                assert(r[k + 1] == x);
            }
            if x == e {
                assert(r[0] == e);
            }
        }
    }
}

/// Ordering by weight puts the heaviest edges first and keeps exactly the edges of the list,
/// each as often as in the list's length.
pub proof fn lemma_by_weight(v: GraphView, list: Seq<usize>)
    ensures
        heaviest_first(v, by_weight(v, list)),
        by_weight(v, list).len() == list.len(),
        forall|x: usize| #[trigger] by_weight(v, list).contains(x) <==> list.contains(x),
    decreases list.len(),
{
    if list.len() > 0 {
        let init = list.drop_last();
        lemma_by_weight(v, init);
        lemma_insert_by_weight(v, list.last(), by_weight(v, init));
        assert forall|x: usize| #[trigger] by_weight(v, list).contains(x) <==> list.contains(x) by {
            if init.contains(x) {
                let k = choose|k: int| 0 <= k < init.len() && init[k] == x;
                assert(list[k] == x);
            }
            if list.contains(x) {
                let k = choose|k: int| 0 <= k < list.len() && list[k] == x;
                if k < init.len() {
                    assert(init[k] == x);
                }
            }
        }
    }
}

/// What the search asks its caller to do, in order.
pub enum SearchAction {
    /// Print a line.
    Print(String),
    /// Send node `id` labelled `label` to Gephi.
    GephiNode { id: usize, label: String },
    /// Send directed edge `id` from `source` to `target` with weight `weight` to Gephi.
    GephiEdge { id: usize, source: usize, target: usize, weight: u32 },
    /// Wait ten milliseconds.
    Pause,
}

pub enum ActionView {
    Print(Seq<char>),
    GephiNode(usize, Seq<char>),
    GephiEdge(usize, usize, usize, u32),
    Pause,
}

impl View for SearchAction {
    type V = ActionView;

    open spec fn view(&self) -> ActionView {
        match self {
            SearchAction::Print(s) => ActionView::Print(s@),
            SearchAction::GephiNode { id, label } => ActionView::GephiNode(*id, label@),
            SearchAction::GephiEdge { id, source, target, weight } => ActionView::GephiEdge(
                *id,
                *source,
                *target,
                *weight,
            ),
            SearchAction::Pause => ActionView::Pause,
        }
    }
}

pub open spec fn action_views(a: Seq<SearchAction>) -> Seq<ActionView> {
    a.map_values(|x: SearchAction| x@)
}

/// What becomes of each visited edge.
#[derive(Clone, Copy, Debug, PartialEq, Eq, Structural)]
pub enum SearchMode {
    /// Print it (no dot output, no Gephi).
    Print,
    /// Stream it to Gephi.
    Stream,
    /// Add it to the result graph for dot output.
    Dot,
    /// Neither (dot output and Gephi together): only walk.
    Quiet,
}

pub open spec fn search_mode(neighbor_dot_export: bool, gephi_enable: bool) -> SearchMode {
    if !neighbor_dot_export && !gephi_enable {
        SearchMode::Print
    } else if !neighbor_dot_export && gephi_enable {
        SearchMode::Stream
    } else if neighbor_dot_export && !gephi_enable {
        SearchMode::Dot
    } else {
        SearchMode::Quiet
    }
}

/// Why a search stopped: the result graph's indices or the Gephi edge ids ran out.
#[derive(Clone, Copy, Debug, PartialEq, Eq, Structural)]
pub enum SearchError {
    ResultFull,
    IdOverflow,
}

/// The line printed for an edge: `a -> b (w)` for an outgoing edge, `a <- b (w)` otherwise.
pub open spec fn edge_line(from: Seq<char>, to: Seq<char>, w: u32, outgoing: bool) -> Seq<char> {
    from + (if outgoing {
        " -> "@
    } else {
        " <- "@
    }) + to + " ("@ + decimal(w as nat) + ")"@
}

/// The number printed in an edge line is the edge's whole weight: the line is the source name,
/// ` -> ` (or ` <- `), the target name, ` (`, a numeral that reads back with `parse_u32` as the
/// weight, and `)`.
pub proof fn lemma_edge_line_weight(from: Seq<char>, to: Seq<char>, w: u32, outgoing: bool)
    ensures
        ({
            let line = edge_line(from, to, w, outgoing);
            let arrow = if outgoing {
                seq![' ', '-', '>', ' ']
            } else {
                seq![' ', '<', '-', ' ']
            };
            let n = (from.len() + 4 + to.len() + 2) as int;
            &&& n < line.len()
            &&& line.subrange(0, n) == from + arrow + to + seq![' ', '(']
            &&& line.last() == ')'
            &&& u32_from_text(encode_utf8(line.subrange(n, line.len() - 1))) == Some(w)
        }),
{
    reveal_strlit(" -> ");
    reveal_strlit(" <- ");
    reveal_strlit(" (");
    reveal_strlit(")");
    let line = edge_line(from, to, w, outgoing);
    let arrow = if outgoing {
        seq![' ', '-', '>', ' ']
    } else {
        seq![' ', '<', '-', ' ']
    };
    assert(" -> "@ =~= seq![' ', '-', '>', ' ']);
    assert(" <- "@ =~= seq![' ', '<', '-', ' ']);
    assert(" ("@ =~= seq![' ', '(']);
    assert(")"@ =~= seq![')']);
    let d = decimal(w as nat);
    let head = from + arrow + to + seq![' ', '('];
    assert(line =~= head + d + seq![')']);
    let n = head.len() as int;
    assert(line.subrange(0, n) =~= head);
    assert(line.subrange(n, line.len() - 1) =~= d);
    lemma_decimal_reads_back(w);
}

/// The line printed after each edge list.
pub open spec fn separator_line() -> Seq<char> {
    "--------------------------------------"@
}

/// The state the search carries along: the result graph, the next Gephi edge id, the actions
/// so far, and why it stopped, if it did.
pub struct SearchState {
    pub result: GraphView,
    pub id: int,
    pub actions: Seq<ActionView>,
    pub failure: Option<SearchError>,
}

/// The result graph holds a node for `name`; a newly added node is sent to Gephi when
/// `stream` is set.
pub open spec fn need_node(s: SearchState, name: Seq<char>, stream: bool) -> SearchState {
    if s.failure is Some || s.result.nodes.contains(name) {
        s
    } else if s.result.nodes.len() >= 0xffff_ffff {
        SearchState { failure: Some(SearchError::ResultFull), ..s }
    } else {
        SearchState {
            result: with_node(s.result, name),
            actions: if stream {
                s.actions.push(ActionView::GephiNode(s.result.nodes.len() as usize, name))
            } else {
                s.actions
            },
            ..s
        }
    }
}

/// The effect of one visit.
pub open spec fn render_one(g: GraphView, s: SearchState, x: Visit, mode: SearchMode) -> SearchState {
    if s.failure is Some {
        s
    } else {
        match x {
            Visit::EndOfList => if mode == SearchMode::Print {
                SearchState { actions: s.actions.push(ActionView::Print(separator_line())), ..s }
            } else {
                s
            },
            Visit::Edge { outgoing, from, edge, to } => {
                let nf = g.nodes[from as int];
                let nt = g.nodes[to as int];
                let w = g.edges[edge as int].2;
                match mode {
                    SearchMode::Print => SearchState {
                        actions: s.actions.push(ActionView::Print(edge_line(nf, nt, w, outgoing))),
                        ..s
                    },
                    SearchMode::Quiet => s,
                    SearchMode::Stream => {
                        let s2 = need_node(need_node(s, nf, true), nt, true);
                        if s2.failure is Some {
                            s2
                        } else {
                            let o = node_position(s2.result, nf) as usize;
                            let d = node_position(s2.result, nt) as usize;
                            let s3 = SearchState {
                                actions: s2.actions.push(
                                    if outgoing {
                                        ActionView::GephiEdge(s2.id as usize, o, d, w)
                                    } else {
                                        ActionView::GephiEdge(s2.id as usize, d, o, w)
                                    },
                                ),
                                ..s2
                            };
                            if s2.id >= usize::MAX {
                                SearchState { failure: Some(SearchError::IdOverflow), ..s3 }
                            } else {
                                SearchState {
                                    id: s2.id + 1,
                                    actions: s3.actions.push(ActionView::Pause),
                                    ..s3
                                }
                            }
                        }
                    },
                    SearchMode::Dot => {
                        let s2 = need_node(need_node(s, nf, false), nt, false);
                        if s2.failure is Some {
                            s2
                        } else if s2.result.edges.len() >= 0xffff_ffff {
                            SearchState { failure: Some(SearchError::ResultFull), ..s2 }
                        } else {
                            let o = node_position(s2.result, nf) as usize;
                            let d = node_position(s2.result, nt) as usize;
                            let e = if outgoing {
                                (o, d, w)
                            } else {
                                (d, o, w)
                            };
                            SearchState {
                                result: GraphView { edges: s2.result.edges.push(e), ..s2.result },
                                ..s2
                            }
                        }
                    },
                }
            },
        }
    }
}

/// The effect of a sequence of visits, one after another.
pub open spec fn render(g: GraphView, s: SearchState, xs: Seq<Visit>, mode: SearchMode) -> SearchState
    decreases xs.len(),
{
    if xs.len() == 0 {
        s
    } else {
        render_one(g, render(g, s, xs.drop_last(), mode), xs.last(), mode)
    }
}

pub proof fn lemma_render_concat(
    g: GraphView,
    s: SearchState,
    xs: Seq<Visit>,
    ys: Seq<Visit>,
    mode: SearchMode,
)
    ensures
        render(g, render(g, s, xs, mode), ys, mode) == render(g, s, xs + ys, mode),
    decreases ys.len(),
{
    if ys.len() == 0 {
        assert(xs + ys =~= xs);
    } else {
        lemma_render_concat(g, s, xs, ys.drop_last(), mode);
        assert((xs + ys).drop_last() =~= xs + ys.drop_last());
        assert((xs + ys).last() == ys.last());
    }
}

pub proof fn lemma_render_failed(g: GraphView, s: SearchState, xs: Seq<Visit>, mode: SearchMode)
    requires
        s.failure is Some,
    ensures
        render(g, s, xs, mode) == s,
    decreases xs.len(),
{
    if xs.len() > 0 {
        lemma_render_failed(g, s, xs.drop_last(), mode);
    }
}

proof fn lemma_visits_list_concat(
    v: GraphView,
    stop: Seq<Seq<char>>,
    a: usize,
    depth: int,
    max: int,
    l1: Seq<usize>,
    l2: Seq<usize>,
    outgoing: bool,
)
    ensures
        visits_list(v, stop, a, depth, max, l1 + l2, outgoing) == visits_list(
            v,
            stop,
            a,
            depth,
            max,
            l1,
            outgoing,
        ) + visits_list(v, stop, a, depth, max, l2, outgoing),
    decreases l1.len(),
{
    if l1.len() == 0 {
        assert(l1 + l2 =~= l2);
        assert(Seq::<Visit>::empty() + visits_list(v, stop, a, depth, max, l2, outgoing)
            =~= visits_list(v, stop, a, depth, max, l2, outgoing));
    } else {
        lemma_visits_list_concat(v, stop, a, depth, max, l1.drop_first(), l2, outgoing);
        assert((l1 + l2).drop_first() =~= l1.drop_first() + l2);
        assert((l1 + l2)[0] == l1[0]);
        let e = l1[0];
        let other = far_end(v, e, outgoing);
        let here = if other != a {
            seq![Visit::Edge { outgoing, from: a, edge: e, to: other }] + visits(
                v,
                stop,
                other,
                depth + 1,
                max,
            )
        } else {
            Seq::<Visit>::empty()
        };
        assert(here + (visits_list(v, stop, a, depth, max, l1.drop_first(), outgoing)
            + visits_list(v, stop, a, depth, max, l2, outgoing)) =~= (here + visits_list(
            v,
            stop,
            a,
            depth,
            max,
            l1.drop_first(),
            outgoing,
        )) + visits_list(v, stop, a, depth, max, l2, outgoing));
    }
}


/// A visit reports a real edge of `v`, taken from a node that is not a stop word to the
/// other end of the edge, which is a different node.
pub open spec fn reported_from_non_stop(v: GraphView, stop: Seq<Seq<char>>, x: Visit) -> bool {
    match x {
        Visit::Edge { outgoing, from, edge, to } => {
            &&& edge < v.edges.len()
            &&& end_of(v.edges[edge as int], outgoing) == from
            &&& far_end(v, edge, outgoing) == to
            &&& from != to
            &&& !stop.contains(v.nodes[from as int])
        },
        Visit::EndOfList => true,
    }
}

/// Stop words are never searched from: every link the walk from `a` reports is an edge of the
/// graph, taken from a keyword that is not a stop word to the other end of that edge, and
/// links from a keyword to itself are never reported.
pub proof fn lemma_visits_respect_stopwords(
    v: GraphView,
    stop: Seq<Seq<char>>,
    a: usize,
    depth: int,
    max: int,
)
    requires
        v.edges.len() <= usize::MAX,
    ensures
        forall|i: int|
            0 <= i < visits(v, stop, a, depth, max).len() ==> reported_from_non_stop(
                v,
                stop,
                #[trigger] visits(v, stop, a, depth, max)[i],
            ),
    decreases max - depth + 1, 0int,
{
    if depth >= max || stop.contains(v.nodes[a as int]) {
    } else {
        let lo = neighbor_list(v, a, true);
        let li = neighbor_list(v, a, false);
        lemma_neighbor_list_bounded(v, a, true);
        lemma_neighbor_list_bounded(v, a, false);
        lemma_visits_list_respect_stopwords(v, stop, a, depth, max, lo, true);
        lemma_visits_list_respect_stopwords(v, stop, a, depth, max, li, false);
        let p = visits_list(v, stop, a, depth, max, lo, true);
        let q = visits_list(v, stop, a, depth, max, li, false);
        let end = seq![Visit::EndOfList];
        let all = p + end + q + end;
        assert(visits(v, stop, a, depth, max) == all);
        assert forall|i: int| 0 <= i < all.len() implies reported_from_non_stop(
            v,
            stop,
            #[trigger] all[i],
        ) by {
            if i < p.len() {
                assert(all[i] == p[i]);
            } else if p.len() < i < p.len() + 1 + q.len() {
                assert(all[i] == q[i - p.len() - 1]);
            }
        }
    }
}

/// The walk over an edge list of a keyword that is not a stop word reports only links that
/// keep to the stop words.
pub proof fn lemma_visits_list_respect_stopwords(
    v: GraphView,
    stop: Seq<Seq<char>>,
    a: usize,
    depth: int,
    max: int,
    list: Seq<usize>,
    outgoing: bool,
)
    requires
        v.edges.len() <= usize::MAX,
        !stop.contains(v.nodes[a as int]),
        forall|k: int|
            0 <= k < list.len() ==> #[trigger] list[k] < v.edges.len() && end_of(
                v.edges[list[k] as int],
                outgoing,
            ) == a,
    ensures
        forall|i: int|
            0 <= i < visits_list(v, stop, a, depth, max, list, outgoing).len()
                ==> reported_from_non_stop(
                v,
                stop,
                #[trigger] visits_list(v, stop, a, depth, max, list, outgoing)[i],
            ),
    decreases max - depth, list.len(),
{
    if list.len() > 0 {
        let e = list[0];
        let other = far_end(v, e, outgoing);
        let tail = list.drop_first();
        assert forall|k: int| 0 <= k < tail.len() implies #[trigger] tail[k] < v.edges.len()
            && end_of(v.edges[tail[k] as int], outgoing) == a by {
            assert(tail[k] == list[k + 1]);
        }
        lemma_visits_list_respect_stopwords(v, stop, a, depth, max, tail, outgoing);
        let rest = visits_list(v, stop, a, depth, max, tail, outgoing);
        if other != a {
            lemma_visits_respect_stopwords(v, stop, other, depth + 1, max);
            let x = Visit::Edge { outgoing, from: a, edge: e, to: other };
            let deeper = visits(v, stop, other, depth + 1, max);
            let all = seq![x] + deeper + rest;
            assert(visits_list(v, stop, a, depth, max, list, outgoing) == all);
            assert forall|i: int| 0 <= i < all.len() implies reported_from_non_stop(
                v,
                stop,
                #[trigger] all[i],
            ) by {
                if i == 0 {
                    assert(all[0] == x);
                } else if i < 1 + deeper.len() {
                    assert(all[i] == deeper[i - 1]);
                } else {
                    assert(all[i] == rest[i - 1 - deeper.len()]);
                }
            }
        } else {
            assert(visits_list(v, stop, a, depth, max, list, outgoing) =~= rest);
        }
    }
}

/// A search one level deep reports only the links of the searched keyword itself: every
/// reported link leaves `a`.
pub proof fn lemma_one_level_reports_own_links(v: GraphView, stop: Seq<Seq<char>>, a: usize, depth: int)
    ensures
        forall|i: int|
            0 <= i < visits(v, stop, a, depth, depth + 1).len() ==> (#[trigger] visits(
                v,
                stop,
                a,
                depth,
                depth + 1,
            )[i] matches Visit::Edge { from, .. } ==> from == a),
{
    if !stop.contains(v.nodes[a as int]) {
        let lo = neighbor_list(v, a, true);
        let li = neighbor_list(v, a, false);
        lemma_list_one_level(v, stop, a, depth, lo, true);
        lemma_list_one_level(v, stop, a, depth, li, false);
        let p = visits_list(v, stop, a, depth, depth + 1, lo, true);
        let q = visits_list(v, stop, a, depth, depth + 1, li, false);
        let end = seq![Visit::EndOfList];
        let all = p + end + q + end;
        assert(visits(v, stop, a, depth, depth + 1) == all);
        assert forall|i: int| 0 <= i < all.len() implies (#[trigger] all[i] matches Visit::Edge {
            from,
            ..
        } ==> from == a) by {
            if i < p.len() {
                assert(all[i] == p[i]);
            } else if p.len() < i < p.len() + 1 + q.len() {
                assert(all[i] == q[i - p.len() - 1]);
            }
        }
    }
}

proof fn lemma_list_one_level(
    v: GraphView,
    stop: Seq<Seq<char>>,
    a: usize,
    depth: int,
    list: Seq<usize>,
    outgoing: bool,
)
    ensures
        forall|i: int|
            0 <= i < visits_list(v, stop, a, depth, depth + 1, list, outgoing).len() ==> (
            #[trigger] visits_list(v, stop, a, depth, depth + 1, list, outgoing)[i] matches Visit::Edge {
                from,
                ..
            } ==> from == a),
    decreases list.len(),
{
    if list.len() > 0 {
        let tail = list.drop_first();
        lemma_list_one_level(v, stop, a, depth, tail, outgoing);
        let rest = visits_list(v, stop, a, depth, depth + 1, tail, outgoing);
        let e = list[0];
        let other = far_end(v, e, outgoing);
        if other != a {
            let x = Visit::Edge { outgoing, from: a, edge: e, to: other };
            assert(visits(v, stop, other, depth + 1, depth + 1) =~= Seq::<Visit>::empty());
            assert(visits_list(v, stop, a, depth, depth + 1, list, outgoing) =~= seq![x] + rest);
        } else {
            assert(visits_list(v, stop, a, depth, depth + 1, list, outgoing) =~= rest);
        }
    }
}

/// The lines a one-level search prints for the edges `list` of node `a`: one `edge_line` per
/// edge to another node, in the order of `list`.
pub open spec fn printed_lines(v: GraphView, a: usize, list: Seq<usize>, outgoing: bool) -> Seq<
    ActionView,
>
    decreases list.len(),
{
    if list.len() == 0 {
        Seq::empty()
    } else {
        let e = list[0];
        let other = far_end(v, e, outgoing);
        (if other != a {
            seq![
                ActionView::Print(
                    edge_line(v.nodes[a as int], v.nodes[other as int], weight(v, e), outgoing),
                ),
            ]
        } else {
            Seq::empty()
        }) + printed_lines(v, a, list.drop_first(), outgoing)
    }
}

proof fn lemma_print_list(
    v: GraphView,
    stop: Seq<Seq<char>>,
    a: usize,
    depth: int,
    s: SearchState,
    list: Seq<usize>,
    outgoing: bool,
)
    requires
        s.failure is None,
    ensures
        render(v, s, visits_list(v, stop, a, depth, depth + 1, list, outgoing), SearchMode::Print)
            == (SearchState { actions: s.actions + printed_lines(v, a, list, outgoing), ..s }),
    decreases list.len(),
{
    let m = SearchMode::Print;
    if list.len() == 0 {
        assert(s.actions + printed_lines(v, a, list, outgoing) =~= s.actions);
    } else {
        let e = list[0];
        let other = far_end(v, e, outgoing);
        let tail = list.drop_first();
        let rest = visits_list(v, stop, a, depth, depth + 1, tail, outgoing);
        if other != a {
            let x = Visit::Edge { outgoing, from: a, edge: e, to: other };
            assert(visits(v, stop, other, depth + 1, depth + 1) =~= Seq::<Visit>::empty());
            assert(visits_list(v, stop, a, depth, depth + 1, list, outgoing) =~= seq![x] + rest);
            lemma_render_concat(v, s, seq![x], rest, m);
            lemma_render_single(v, s, x, m);
            let line = ActionView::Print(
                edge_line(v.nodes[a as int], v.nodes[other as int], weight(v, e), outgoing),
            );
            let s1 = SearchState { actions: s.actions.push(line), ..s };
            assert(render(v, s, seq![x], m) == s1);
            lemma_print_list(v, stop, a, depth, s1, tail, outgoing);
            assert(s1.actions + printed_lines(v, a, tail, outgoing) =~= s.actions + printed_lines(
                v,
                a,
                list,
                outgoing,
            ));
        } else {
            assert(visits_list(v, stop, a, depth, depth + 1, list, outgoing) =~= rest);
            lemma_print_list(v, stop, a, depth, s, tail, outgoing);
            assert(printed_lines(v, a, list, outgoing) =~= printed_lines(v, a, tail, outgoing));
        }
    }
}

/// A one-level search in print mode from a keyword that is not a stop word prints the lines
/// of its outgoing edges, heaviest first, a separator, the lines of its incoming edges,
/// heaviest first, and a separator.
pub proof fn lemma_one_level_print(
    v: GraphView,
    stop: Seq<Seq<char>>,
    a: usize,
    depth: int,
    s: SearchState,
)
    requires
        s.failure is None,
        !stop.contains(v.nodes[a as int]),
    ensures
        render(v, s, visits(v, stop, a, depth, depth + 1), SearchMode::Print) == (SearchState {
            actions: s.actions + printed_lines(v, a, neighbor_list(v, a, true), true) + seq![
                ActionView::Print(separator_line()),
            ] + printed_lines(v, a, neighbor_list(v, a, false), false) + seq![
                ActionView::Print(separator_line()),
            ],
            ..s
        }),
        heaviest_first(v, neighbor_list(v, a, true)),
        heaviest_first(v, neighbor_list(v, a, false)),
{
    let m = SearchMode::Print;
    let lo = neighbor_list(v, a, true);
    let li = neighbor_list(v, a, false);
    lemma_by_weight(v, edges_of(v.edges, a, v.edges.len() as int, true));
    lemma_by_weight(v, edges_of(v.edges, a, v.edges.len() as int, false));
    let p = visits_list(v, stop, a, depth, depth + 1, lo, true);
    let q = visits_list(v, stop, a, depth, depth + 1, li, false);
    let end = seq![Visit::EndOfList];
    assert(visits(v, stop, a, depth, depth + 1) == p + end + q + end);
    lemma_print_list(v, stop, a, depth, s, lo, true);
    let s1 = render(v, s, p, m);
    lemma_render_single(v, s1, Visit::EndOfList, m);
    let s2 = render(v, s1, end, m);
    lemma_print_list(v, stop, a, depth, s2, li, false);
    let s3 = render(v, s2, q, m);
    lemma_render_single(v, s3, Visit::EndOfList, m);
    lemma_render_concat(v, s, p, end, m);
    lemma_render_concat(v, s, p + end, q, m);
    lemma_render_concat(v, s, p + end + q, end, m);
    assert(render(v, s3, end, m).actions =~= s.actions + printed_lines(v, a, lo, true) + seq![
        ActionView::Print(separator_line()),
    ] + printed_lines(v, a, li, false) + seq![ActionView::Print(separator_line())]);
}

/// `new` keeps everything `old` had: its nodes at their indices, its edges at theirs.
pub open spec fn keeps_graph(old: GraphView, new: GraphView) -> bool {
    &&& old.nodes.len() <= new.nodes.len()
    &&& forall|i: int| 0 <= i < old.nodes.len() ==> #[trigger] new.nodes[i] == old.nodes[i]
    &&& old.edges.len() <= new.edges.len()
    &&& forall|i: int| 0 <= i < old.edges.len() ==> #[trigger] new.edges[i] == old.edges[i]
}

/// A later search state keeps the earlier one's result graph and actions, and its next Gephi
/// edge id is no smaller.
pub open spec fn keeps_state(old: SearchState, new: SearchState) -> bool {
    &&& keeps_graph(old.result, new.result)
    &&& old.actions.len() <= new.actions.len()
    &&& forall|i: int| 0 <= i < old.actions.len() ==> #[trigger] new.actions[i] == old.actions[i]
    &&& old.id <= new.id
}

proof fn lemma_need_node_keeps(s: SearchState, name: Seq<char>, stream: bool)
    ensures
        keeps_state(s, need_node(s, name, stream)),
{
}

proof fn lemma_render_one_keeps(g: GraphView, s: SearchState, x: Visit, mode: SearchMode)
    ensures
        keeps_state(s, render_one(g, s, x, mode)),
{
    if s.failure is None {
        match x {
            Visit::EndOfList => {},
            Visit::Edge { outgoing, from, edge, to } => {
                let nf = g.nodes[from as int];
                let nt = g.nodes[to as int];
                let stream = mode == SearchMode::Stream;
                let s1 = need_node(s, nf, stream);
                let s2 = need_node(s1, nt, stream);
                lemma_need_node_keeps(s, nf, stream);
                lemma_need_node_keeps(s1, nt, stream);
                assert(keeps_state(s, s2));
            },
        }
    }
}

/// The search never drops or renumbers what it built before: every later state keeps the
/// result graph's earlier nodes at their indices and its earlier edges, the actions already
/// asked for, and does not lower the next Gephi edge id.
pub proof fn lemma_search_keeps_result(g: GraphView, s: SearchState, xs: Seq<Visit>, mode: SearchMode)
    ensures
        keeps_state(s, render(g, s, xs, mode)),
    decreases xs.len(),
{
    if xs.len() > 0 {
        lemma_search_keeps_result(g, s, xs.drop_last(), mode);
        lemma_render_one_keeps(g, render(g, s, xs.drop_last(), mode), xs.last(), mode);
    }
}

/// The separator printed after each edge list is a row of 38 dashes.
pub proof fn lemma_separator_line()
    ensures
        separator_line().len() == 38,
        forall|i: int| 0 <= i < 38 ==> #[trigger] separator_line()[i] == '-',
{
    reveal_strlit("--------------------------------------");
}

proof fn lemma_need_node_has(s: SearchState, name: Seq<char>, stream: bool)
    ensures
        need_node(s, name, stream).failure is None ==> need_node(s, name, stream).result.nodes.contains(
            name,
        ),
        forall|x: Seq<char>|
            s.result.nodes.contains(x) ==> #[trigger] need_node(s, name, stream).result.nodes.contains(x),
{
    let t = need_node(s, name, stream);
    if s.failure is None && !s.result.nodes.contains(name) && s.result.nodes.len() < 0xffff_ffff {
        assert(t.result.nodes[s.result.nodes.len() as int] == name);
        assert forall|x: Seq<char>| s.result.nodes.contains(x) implies #[trigger] t.result.nodes.contains(x) by {
            let i = choose|i: int| 0 <= i < s.result.nodes.len() && s.result.nodes[i] == x;
            assert(t.result.nodes[i] == x);
        }
    }
}

/// Each link reaches Gephi and the result graph in its own direction, whether it was walked
/// from its source or from its target: the streamed edge, and the edge added for dot output,
/// go from a node named like the link's source to a node named like its target and carry the
/// link's weight.
pub proof fn lemma_links_keep_direction(
    g: GraphView,
    s: SearchState,
    outgoing: bool,
    from: usize,
    edge: usize,
    to: usize,
    mode: SearchMode,
)
    requires
        s.failure is None,
        s.result.nodes.len() <= 0xffff_ffff,
        0 <= s.id,
        edge < g.edges.len(),
        from == end_of(g.edges[edge as int], outgoing),
        to == far_end(g, edge, outgoing),
    ensures
        ({
            let t = render_one(g, s, Visit::Edge { outgoing, from, edge, to }, mode);
            let src = g.nodes[g.edges[edge as int].0 as int];
            let tgt = g.nodes[g.edges[edge as int].1 as int];
            let w = g.edges[edge as int].2;
            &&& mode == SearchMode::Stream && t.failure is None ==> t.actions.len() >= 2
                && t.actions.last() == ActionView::Pause && (t.actions[t.actions.len() - 2] matches
                ActionView::GephiEdge(i, a, b, x) && i == s.id && x == w && a < t.result.nodes.len()
                && b < t.result.nodes.len() && t.result.nodes[a as int] == src
                && t.result.nodes[b as int] == tgt)
            &&& mode == SearchMode::Dot && t.failure is None ==> t.result.edges.len() > 0 && (
            t.result.edges.last() matches (a, b, x) && x == w && a < t.result.nodes.len() && b
                < t.result.nodes.len() && t.result.nodes[a as int] == src && t.result.nodes[b as int]
                == tgt)
        }),
{
    let nf = g.nodes[from as int];
    let nt = g.nodes[to as int];
    let stream = mode == SearchMode::Stream;
    let s1 = need_node(s, nf, stream);
    let s2 = need_node(s1, nt, stream);
    lemma_need_node_has(s, nf, stream);
    lemma_need_node_has(s1, nt, stream);
    let x = Visit::Edge { outgoing, from, edge, to };
    let t = render_one(g, s, x, mode);
    if s2.failure is None && (mode == SearchMode::Stream || mode == SearchMode::Dot) {
        assert(s2.result.nodes.len() <= 0xffff_ffff);
        assert(s2.result.nodes.contains(nf));
        assert(s2.result.nodes.contains(nt));
        let o = node_position(s2.result, nf);
        let d = node_position(s2.result, nt);
        assert(0 <= o < s2.result.nodes.len() && s2.result.nodes[o] == nf);
        assert(0 <= d < s2.result.nodes.len() && s2.result.nodes[d] == nt);
        assert(o as usize as int == o && d as usize as int == d);
        if mode == SearchMode::Stream {
            let ev = if outgoing {
                ActionView::GephiEdge(s2.id as usize, o as usize, d as usize, g.edges[edge as int].2)
            } else {
                ActionView::GephiEdge(s2.id as usize, d as usize, o as usize, g.edges[edge as int].2)
            };
            if t.failure is None {
                assert(s2.id == s.id);
                assert(t.actions == s2.actions.push(ev).push(ActionView::Pause));
                assert(t.actions[t.actions.len() - 2] == ev);
                assert(t.result == s2.result);
                assert(s.id < usize::MAX);
                if outgoing {
                    assert(nf == g.nodes[g.edges[edge as int].0 as int]);
                    assert(nt == g.nodes[g.edges[edge as int].1 as int]);
                } else {
                    assert(nt == g.nodes[g.edges[edge as int].0 as int]);
                    assert(nf == g.nodes[g.edges[edge as int].1 as int]);
                }
            }
        } else {
            if t.failure is None {
                let e = if outgoing {
                    (o as usize, d as usize, g.edges[edge as int].2)
                } else {
                    (d as usize, o as usize, g.edges[edge as int].2)
                };
                assert(t.result.edges == s2.result.edges.push(e));
                assert(t.result.nodes == s2.result.nodes);
                if outgoing {
                    assert(nf == g.nodes[g.edges[edge as int].0 as int]);
                    assert(nt == g.nodes[g.edges[edge as int].1 as int]);
                } else {
                    assert(nt == g.nodes[g.edges[edge as int].0 as int]);
                    assert(nf == g.nodes[g.edges[edge as int].1 as int]);
                }
            }
        }
    }
}

/// The search state made of its parts.
pub open spec fn state_of(
    result: GraphView,
    id: usize,
    actions: Seq<SearchAction>,
    failure: Option<SearchError>,
) -> SearchState {
    SearchState { result, id: id as int, actions: action_views(actions), failure }
}

/// The failure an outcome reports.
pub open spec fn failure_of(r: Result<(), SearchError>) -> Option<SearchError> {
    match r {
        Ok(_) => None,
        Err(e) => Some(e),
    }
}

/// Whether `name` is one of `list`.
fn contains_name(list: &Vec<String>, name: &String) -> (r: bool)
    ensures
        r == list@.map_values(|s: String| s@).contains(name@),
{
    let ghost views = list@.map_values(|s: String| s@);
    let n = list.len();
    let mut i: usize = 0;
    while i < n
        invariant
            n == list@.len(),
            views == list@.map_values(|s: String| s@),
            i <= n,
            forall|j: int| 0 <= j < i ==> views[j] != name@,
        decreases n - i,
    {
        if list[i] == *name {
            assert(views[i as int] == name@);
            return true;
        }
        i = i + 1;
    }
    assert(!views.contains(name@)) by {
        if views.contains(name@) {
            let j = choose|j: int| 0 <= j < views.len() && views[j] == name@;
        }
    }
    false
}

/// Makes sure the result graph has a node for `name`, announcing a new node to Gephi when
/// `stream` is set; gives the node's index.
fn need_node_exec(
    result: &mut KeywordGraph,
    name: &str,
    stream: bool,
    actions: &mut Vec<SearchAction>,
) -> (r: Result<usize, SearchError>)
    requires
        old(result).wf(),
    ensures
        final(result).wf(),
        ({
            let s1 = need_node(state_of(old(result)@, 0, old(actions)@, None), name@, stream);
            &&& final(result)@ == s1.result
            &&& action_views(final(actions)@) == s1.actions
            &&& match r {
                Ok(i) => s1.failure is None && i < final(result)@.nodes.len()
                    && final(result)@.nodes[i as int] == name@,
                Err(e) => s1.failure == Some(e),
            }
        }),
{
    match result.find(name) {
        Some(i) => Ok(i),
        None => {
            match result.ensure_node(name) {
                Ok(i) => {
                    proof {
                        result.lemma_wf();
                        assert(result@.nodes[old(result)@.nodes.len() as int] == name@);
                        assert(i == old(result)@.nodes.len());
                    }
                    if stream {
                        actions.push(SearchAction::GephiNode { id: i, label: name.to_owned() });
                    }
                    assert(action_views(actions@) =~= need_node(
                        state_of(old(result)@, 0, old(actions)@, None),
                        name@,
                        stream,
                    ).actions);
                    Ok(i)
                },
                Err(_) => Err(SearchError::ResultFull),
            }
        },
    }
}

/// Carries out one edge visit.
fn visit_edge(
    graph: &KeywordGraph,
    result: &mut KeywordGraph,
    mode: SearchMode,
    id: &mut usize,
    actions: &mut Vec<SearchAction>,
    outgoing: bool,
    from: usize,
    e: usize,
    to: usize,
) -> (r: Result<(), SearchError>)
    requires
        graph.wf(),
        old(result).wf(),
        from < graph@.nodes.len(),
        to < graph@.nodes.len(),
        e < graph@.edges.len(),
    ensures
        final(result).wf(),
        state_of(final(result)@, *final(id), final(actions)@, failure_of(r)) == render_one(
            graph@,
            state_of(old(result)@, *old(id), old(actions)@, None),
            Visit::Edge { outgoing, from, edge: e, to },
            mode,
        ),
{
    let ghost s0 = state_of(old(result)@, *old(id), old(actions)@, None);
    let nf = graph.name(from);
    let nt = graph.name(to);
    let (_, _, w) = graph.edge(e);
    match mode {
        SearchMode::Print => {
            let mut line = nf.clone();
            if outgoing {
                line.append(" -> ");
            } else {
                line.append(" <- ");
            }
            line.append(nt.as_str());
            line.append(" (");
            push_decimal(&mut line, w as u64);
            line.append(")");
            assert(line@ =~= edge_line(nf@, nt@, w, outgoing));
            actions.push(SearchAction::Print(line));
            assert(action_views(actions@) =~= action_views(old(actions)@).push(
                ActionView::Print(edge_line(nf@, nt@, w, outgoing)),
            ));
            assert(nf@ == graph@.nodes[from as int]);
            assert(nt@ == graph@.nodes[to as int]);
            assert(w == graph@.edges[e as int].2);
            assert(render_one(graph@, s0, Visit::Edge { outgoing, from, edge: e, to }, mode).actions
                == action_views(actions@));
            assert(render_one(graph@, s0, Visit::Edge { outgoing, from, edge: e, to }, mode).result
                == result@);
            Ok(())
        },
        SearchMode::Quiet => Ok(()),
        SearchMode::Stream => {
            let ghost s1 = need_node(s0, nf@, true);
            let o = match need_node_exec(result, nf.as_str(), true, actions) {
                Ok(o) => o,
                Err(err) => return Err(err),
            };
            assert(s1 == state_of(result@, *id, actions@, None));
            let ghost s2 = need_node(s1, nt@, true);
            let d = match need_node_exec(result, nt.as_str(), true, actions) {
                Ok(d) => d,
                Err(err) => return Err(err),
            };
            assert(s2 == state_of(result@, *id, actions@, None));
            proof {
                result.lemma_wf();
                assert(result@.nodes[o as int] == nf@);
                assert(node_position(result@, nf@) == o);
                assert(node_position(result@, nt@) == d);
            }
            let cur = *id;
            if outgoing {
                actions.push(SearchAction::GephiEdge { id: cur, source: o, target: d, weight: w });
            } else {
                actions.push(SearchAction::GephiEdge { id: cur, source: d, target: o, weight: w });
            }
            let ghost ev = if outgoing {
                ActionView::GephiEdge(cur, o, d, w)
            } else {
                ActionView::GephiEdge(cur, d, o, w)
            };
            assert(action_views(actions@) =~= s2.actions.push(ev));
            if cur == usize::MAX {
                return Err(SearchError::IdOverflow);
            }
            *id = cur + 1;
            actions.push(SearchAction::Pause);
            assert(action_views(actions@) =~= s2.actions.push(ev).push(ActionView::Pause));
            Ok(())
        },
        SearchMode::Dot => {
            let ghost s1 = need_node(s0, nf@, false);
            let o = match need_node_exec(result, nf.as_str(), false, actions) {
                Ok(o) => o,
                Err(err) => return Err(err),
            };
            assert(s1 == state_of(result@, *id, actions@, None));
            let ghost s2 = need_node(s1, nt@, false);
            let d = match need_node_exec(result, nt.as_str(), false, actions) {
                Ok(d) => d,
                Err(err) => return Err(err),
            };
            assert(s2 == state_of(result@, *id, actions@, None));
            proof {
                result.lemma_wf();
                assert(result@.nodes[o as int] == nf@);
                assert(node_position(result@, nf@) == o);
                assert(node_position(result@, nt@) == d);
            }
            let added = if outgoing {
                result.add_edge(o, d, w)
            } else {
                result.add_edge(d, o, w)
            };
            proof {
                result.lemma_wf();
            }
            let ghost x = Visit::Edge { outgoing, from, edge: e, to };
            match added {
                Ok(_) => {
                    assert(render_one(graph@, s0, x, mode).result == result@);
                    Ok(())
                },
                Err(_) => {
                    assert(render_one(graph@, s0, x, mode).result == result@);
                    Err(SearchError::ResultFull)
                },
            }
        },
    }
}


/// The stop words as plain text.
pub open spec fn stop_names(stopword: Seq<String>) -> Seq<Seq<char>> {
    stopword.map_values(|s: String| s@)
}

fn mode_of(neighbor_dot_export: bool, gephi_enable: bool) -> (m: SearchMode)
    ensures
        m == search_mode(neighbor_dot_export, gephi_enable),
{
    if !neighbor_dot_export && !gephi_enable {
        SearchMode::Print
    } else if !neighbor_dot_export && gephi_enable {
        SearchMode::Stream
    } else if neighbor_dot_export && !gephi_enable {
        SearchMode::Dot
    } else {
        SearchMode::Quiet
    }
}

fn end_of_list(mode: SearchMode, actions: &mut Vec<SearchAction>)
    ensures
        action_views(final(actions)@) == (if mode == SearchMode::Print {
            action_views(old(actions)@).push(ActionView::Print(separator_line()))
        } else {
            action_views(old(actions)@)
        }),
{
    if mode == SearchMode::Print {
        actions.push(SearchAction::Print("--------------------------------------".to_owned()));
        assert(action_views(actions@) =~= action_views(old(actions)@).push(
            ActionView::Print(separator_line()),
        ));
    }
}

proof fn lemma_visits_list_single(
    v: GraphView,
    stop: Seq<Seq<char>>,
    a: usize,
    depth: int,
    max: int,
    e: usize,
    outgoing: bool,
)
    ensures
        visits_list(v, stop, a, depth, max, seq![e], outgoing) == if far_end(v, e, outgoing) != a {
            seq![Visit::Edge { outgoing, from: a, edge: e, to: far_end(v, e, outgoing) }] + visits(
                v,
                stop,
                far_end(v, e, outgoing),
                depth + 1,
                max,
            )
        } else {
            Seq::<Visit>::empty()
        },
{
    let l = seq![e];
    assert(l[0] == e);
    assert(l.drop_first() =~= Seq::<usize>::empty());
    let other = far_end(v, e, outgoing);
    let here = if other != a {
        seq![Visit::Edge { outgoing, from: a, edge: e, to: other }] + visits(v, stop, other, depth + 1, max)
    } else {
        Seq::<Visit>::empty()
    };
    assert(visits_list(v, stop, a, depth, max, l.drop_first(), outgoing) == Seq::<Visit>::empty());
    assert(here + Seq::<Visit>::empty() =~= here);
}

proof fn lemma_visits_list_step(
    v: GraphView,
    stop: Seq<Seq<char>>,
    a: usize,
    depth: int,
    max: int,
    list: Seq<usize>,
    k: int,
    outgoing: bool,
)
    requires
        0 <= k < list.len(),
    ensures
        visits_list(v, stop, a, depth, max, list.take(k + 1), outgoing) == visits_list(
            v,
            stop,
            a,
            depth,
            max,
            list.take(k),
            outgoing,
        ) + visits_list(v, stop, a, depth, max, seq![list[k]], outgoing),
        visits_list(v, stop, a, depth, max, list, outgoing) == visits_list(
            v,
            stop,
            a,
            depth,
            max,
            list.take(k + 1),
            outgoing,
        ) + visits_list(v, stop, a, depth, max, list.skip(k + 1), outgoing),
{
    assert(list.take(k + 1) =~= list.take(k) + seq![list[k]]);
    assert(list =~= list.take(k + 1) + list.skip(k + 1));
    lemma_visits_list_concat(v, stop, a, depth, max, list.take(k), seq![list[k]], outgoing);
    lemma_visits_list_concat(v, stop, a, depth, max, list.take(k + 1), list.skip(k + 1), outgoing);
}

proof fn lemma_render_single(g: GraphView, s: SearchState, x: Visit, mode: SearchMode)
    ensures
        render(g, s, seq![x], mode) == render_one(g, s, x, mode),
{
    assert(seq![x].drop_last() =~= Seq::<Visit>::empty());
    assert(seq![x].last() == x);
    assert(render(g, s, Seq::<Visit>::empty(), mode) == s);
}

/// Walks one edge `e` of node `a`: visits it and searches on from its far end, unless the
/// edge leads back to `a`.
fn walk_edge(
    graph: &KeywordGraph,
    a: usize,
    depth: u8,
    max_depth: u8,
    stopword: &Vec<String>,
    result: &mut KeywordGraph,
    neighbor_dot_export: bool,
    gephi: &Gephi,
    mode: SearchMode,
    id: &mut usize,
    actions: &mut Vec<SearchAction>,
    outgoing: bool,
    e: usize,
) -> (r: Result<(), SearchError>)
    requires
        mode == search_mode(neighbor_dot_export, gephi.enable),
        graph.wf(),
        old(result).wf(),
        a < graph@.nodes.len(),
        depth < max_depth,
        e < graph@.edges.len(),
    ensures
        final(result).wf(),
        state_of(final(result)@, *final(id), final(actions)@, failure_of(r)) == render(
            graph@,
            state_of(old(result)@, *old(id), old(actions)@, None),
            visits_list(
                graph@,
                stop_names(stopword@),
                a,
                depth as int,
                max_depth as int,
                seq![e],
                outgoing,
            ),
            mode,
        ),
    decreases max_depth - depth, 1int,
{
    let ghost g = graph@;
    let ghost stop = stop_names(stopword@);
    let ghost s0 = state_of(old(result)@, *old(id), old(actions)@, None);
    proof {
        graph.lemma_wf();
        lemma_visits_list_single(g, stop, a, depth as int, max_depth as int, e, outgoing);
    }
    let (src, tgt, _) = graph.edge(e);
    let other = if outgoing {
        tgt
    } else {
        src
    };
    assert(far_end(g, e, outgoing) == other);
    if other == a {
        return Ok(());
    }
    let ghost x = Visit::Edge { outgoing, from: a, edge: e, to: other };
    let ghost deeper = visits(g, stop, other, depth + 1, max_depth as int);
    proof {
        lemma_render_concat(g, s0, seq![x], deeper, mode);
        lemma_render_single(g, s0, x, mode);
    }
    let v = visit_edge(graph, result, mode, id, actions, outgoing, a, e, other);
    if let Err(err) = v {
        proof {
            lemma_render_failed(g, state_of(result@, *id, actions@, Some(err)), deeper, mode);
        }
        return Err(err);
    }
    search_neighbors(
        graph,
        other,
        depth + 1,
        max_depth,
        stopword,
        result,
        neighbor_dot_export,
        gephi,
        id,
        actions,
    )
}

/// The edges of weight `w`.
pub open spec fn weighs(v: GraphView, w: u32) -> spec_fn(usize) -> bool {
    |e: usize| weight(v, e) == w
}

proof fn lemma_single_filter(x: usize, f: spec_fn(usize) -> bool)
    ensures
        seq![x].filter(f) == (if f(x) {
            seq![x]
        } else {
            Seq::<usize>::empty()
        }),
{
    reveal_with_fuel(Seq::filter, 2);
    assert(seq![x].drop_last() =~= Seq::<usize>::empty());
}

proof fn lemma_none_weighs(v: GraphView, s: Seq<usize>, w: u32)
    requires
        forall|i: int| 0 <= i < s.len() ==> weight(v, #[trigger] s[i]) != w,
    ensures
        s.filter(weighs(v, w)) == Seq::<usize>::empty(),
    decreases s.len(),
{
    if s.len() == 0 {
        reveal(Seq::filter);
    } else {
        lemma_none_weighs(v, s.drop_last(), w);
        assert(s[s.len() - 1] == s.last());
        s.drop_last().lemma_filter_push(s.last(), weighs(v, w));
        assert(s.drop_last().push(s.last()) =~= s);
    }
}

proof fn lemma_insert_keeps_ties(v: GraphView, e: usize, s: Seq<usize>, w: u32)
    requires
        heaviest_first(v, s),
    ensures
        insert_by_weight(v, e, s).filter(weighs(v, w)) == (if weight(v, e) == w {
            s.filter(weighs(v, w)).push(e)
        } else {
            s.filter(weighs(v, w))
        }),
    decreases s.len(),
{
    let f = weighs(v, w);
    lemma_single_filter(e, f);
    if s.len() == 0 {
        assert(s.filter(f) =~= Seq::<usize>::empty());
        assert(Seq::<usize>::empty().push(e) =~= seq![e]);
    } else if weight(v, s[0]) >= weight(v, e) {
        let t = s.drop_first();
        assert forall|i: int, j: int| 0 <= i < j < t.len() implies weight(v, #[trigger] t[i]) >= weight(
            v,
            #[trigger] t[j],
        ) by {
            assert(t[i] == s[i + 1] && t[j] == s[j + 1]);
        }
        lemma_insert_keeps_ties(v, e, t, w);
        Seq::filter_distributes_over_add(seq![s[0]], insert_by_weight(v, e, t), f);
        assert(s =~= seq![s[0]] + t);
        Seq::filter_distributes_over_add(seq![s[0]], t, f);
        lemma_single_filter(s[0], f);
        if weight(v, e) == w {
            assert(seq![s[0]].filter(f) + t.filter(f).push(e) =~= (seq![s[0]].filter(f) + t.filter(
                f,
            )).push(e));
        }
    } else {
        Seq::filter_distributes_over_add(seq![e], s, f);
        if weight(v, e) == w {
            assert forall|i: int| 0 <= i < s.len() implies weight(v, #[trigger] s[i]) != w by {
                if i > 0 {
                    assert(weight(v, s[0]) >= weight(v, s[i]));
                }
            }
            lemma_none_weighs(v, s, w);
            assert(seq![e] + Seq::<usize>::empty() =~= Seq::<usize>::empty().push(e));
        } else {
            assert(Seq::<usize>::empty() + s.filter(f) =~= s.filter(f));
        }
    }
}

/// Ordering by weight keeps the walk order among equal weights: for every weight, the edges
/// of that weight come in the same order in the ordered list as in the walked list.
pub proof fn lemma_by_weight_keeps_ties(v: GraphView, list: Seq<usize>, w: u32)
    ensures
        by_weight(v, list).filter(weighs(v, w)) == list.filter(weighs(v, w)),
    decreases list.len(),
{
    let f = weighs(v, w);
    if list.len() == 0 {
        reveal(Seq::filter);
    } else {
        let init = list.drop_last();
        lemma_by_weight_keeps_ties(v, init, w);
        lemma_by_weight(v, init);
        lemma_insert_keeps_ties(v, list.last(), by_weight(v, init), w);
        init.lemma_filter_push(list.last(), f);
        assert(init.push(list.last()) =~= list);
    }
}

/// The edges the search takes from node `a` are edges of the graph that leave `a`
/// (`outgoing`) or arrive at it.
proof fn lemma_neighbor_list_bounded(v: GraphView, a: usize, outgoing: bool)
    requires
        v.edges.len() <= usize::MAX,
    ensures
        forall|k: int|
            0 <= k < neighbor_list(v, a, outgoing).len() ==> #[trigger] neighbor_list(
                v,
                a,
                outgoing,
            )[k] < v.edges.len() && end_of(
                v.edges[neighbor_list(v, a, outgoing)[k] as int],
                outgoing,
            ) == a,
{
    let l = edges_of(v.edges, a, v.edges.len() as int, outgoing);
    let s = neighbor_list(v, a, outgoing);
    lemma_edges_of_bounded(v.edges, a, v.edges.len() as int, outgoing);
    lemma_by_weight(v, l);
    assert forall|k: int| 0 <= k < s.len() implies #[trigger] s[k] < v.edges.len() && end_of(
        v.edges[s[k] as int],
        outgoing,
    ) == a by {
        assert(s.contains(s[k]));
        assert(l.contains(s[k]));
        let m = choose|m: int| 0 <= m < l.len() && l[m] == s[k];
        assert(l[m] == s[k]);
    }
}

/// The edges of `list` in the order `by_weight` gives: heaviest first, equal weights in
/// list order.
fn sort_by_weight(graph: &KeywordGraph, list: &Vec<usize>) -> (r: Vec<usize>)
    requires
        graph.wf(),
        forall|i: int| 0 <= i < list@.len() ==> #[trigger] list@[i] < graph@.edges.len(),
    ensures
        r@ == by_weight(graph@, list@),
{
    let ghost g = graph@;
    let n = list.len();
    let mut out: Vec<usize> = Vec::new();
    let mut k: usize = 0;
    assert(list@.take(0) =~= Seq::<usize>::empty());
    while k < n
        invariant
            graph.wf(),
            g == graph@,
            n == list@.len(),
            k <= n,
            forall|i: int| 0 <= i < list@.len() ==> #[trigger] list@[i] < g.edges.len(),
            out@ == by_weight(g, list@.take(k as int)),
            forall|i: int| 0 <= i < out@.len() ==> #[trigger] out@[i] < g.edges.len(),
        decreases n - k,
    {
        let e = list[k];
        let (_, _, w) = graph.edge(e);
        let m = out.len();
        let mut p: usize = 0;
        while p < m
            invariant
                graph.wf(),
                g == graph@,
                m == out@.len(),
                p <= m,
                w == weight(g, e),
                forall|i: int| 0 <= i < out@.len() ==> #[trigger] out@[i] < g.edges.len(),
                forall|i: int| 0 <= i < p ==> weight(g, #[trigger] out@[i]) >= weight(g, e),
            ensures
                p <= m,
                forall|i: int| 0 <= i < p ==> weight(g, #[trigger] out@[i]) >= weight(g, e),
                p == m || weight(g, out@[p as int]) < weight(g, e),
            decreases m - p,
        {
            let (_, _, x) = graph.edge(out[p]);
            if x < w {
                break;
            }
            p = p + 1;
        }
        proof {
            lemma_insert_at(g, e, out@, p as int);
            assert(list@.take(k + 1).drop_last() =~= list@.take(k as int));
            assert(list@.take(k + 1).last() == e);
        }
        let ghost before = out@;
        out.insert(p, e);
        proof {
            before.insert_ensures(p as int, e);
            assert forall|i: int| 0 <= i < out@.len() implies #[trigger] out@[i] < g.edges.len() by {
                if i > p {
                    assert(out@[i] == before[i - 1]);
                } else if i < p {
                    assert(out@[i] == before[i]);
                }
            }
        }
        k = k + 1;
    }
    assert(list@.take(n as int) =~= list@);
    out
}

/// Walks the outgoing (or incoming) edges of node `a`, heaviest first.
fn walk_list(
    graph: &KeywordGraph,
    a: usize,
    depth: u8,
    max_depth: u8,
    stopword: &Vec<String>,
    result: &mut KeywordGraph,
    neighbor_dot_export: bool,
    gephi: &Gephi,
    mode: SearchMode,
    id: &mut usize,
    actions: &mut Vec<SearchAction>,
    outgoing: bool,
) -> (r: Result<(), SearchError>)
    requires
        mode == search_mode(neighbor_dot_export, gephi.enable),
        graph.wf(),
        old(result).wf(),
        a < graph@.nodes.len(),
        depth < max_depth,
    ensures
        final(result).wf(),
        state_of(final(result)@, *final(id), final(actions)@, failure_of(r)) == render(
            graph@,
            state_of(old(result)@, *old(id), old(actions)@, None),
            visits_list(
                graph@,
                stop_names(stopword@),
                a,
                depth as int,
                max_depth as int,
                neighbor_list(graph@, a, outgoing),
                outgoing,
            ),
            mode,
        ),
    decreases max_depth - depth, 2int,
{
    let ghost g = graph@;
    let ghost stop = stop_names(stopword@);
    let ghost s0 = state_of(old(result)@, *old(id), old(actions)@, None);
    let walked = graph.edge_list(a, outgoing);
    proof {
        graph.lemma_wf();
        lemma_edges_of_bounded(g.edges, a, g.edges.len() as int, outgoing);
    }
    let list = sort_by_weight(graph, &walked);
    proof {
        lemma_neighbor_list_bounded(g, a, outgoing);
        assert(list@.take(0) =~= Seq::<usize>::empty());
    }
    let n = list.len();
    let mut k: usize = 0;
    while k < n
        invariant
            mode == search_mode(neighbor_dot_export, gephi.enable),
            graph.wf(),
            g == graph@,
            stop == stop_names(stopword@),
            a < g.nodes.len(),
            depth < max_depth,
            n == list@.len(),
            list@ == neighbor_list(g, a, outgoing),
            forall|i: int| 0 <= i < n ==> 0 <= #[trigger] list@[i] < g.edges.len(),
            k <= n,
            result.wf(),
            s0 == state_of(old(result)@, *old(id), old(actions)@, None),
            state_of(result@, *id, actions@, None) == render(
                g,
                s0,
                visits_list(g, stop, a, depth as int, max_depth as int, list@.take(k as int), outgoing),
                mode,
            ),
        decreases n - k,
    {
        let e = list[k];
        let ghost before = visits_list(g, stop, a, depth as int, max_depth as int, list@.take(k as int), outgoing);
        let ghost here = visits_list(g, stop, a, depth as int, max_depth as int, seq![e], outgoing);
        let ghost rest = visits_list(g, stop, a, depth as int, max_depth as int, list@.skip(k + 1), outgoing);
        proof {
            lemma_visits_list_step(g, stop, a, depth as int, max_depth as int, list@, k as int, outgoing);
            lemma_render_concat(g, s0, before, here, mode);
            lemma_render_concat(g, s0, before + here, rest, mode);
        }
        let w = walk_edge(
            graph,
            a,
            depth,
            max_depth,
            stopword,
            result,
            neighbor_dot_export,
            gephi,
            mode,
            id,
            actions,
            outgoing,
            e,
        );
        if let Err(err) = w {
            proof {
                lemma_render_failed(g, state_of(result@, *id, actions@, Some(err)), rest, mode);
            }
            return Err(err);
        }
        k = k + 1;
    }
    proof {
        assert(list@.take(n as int) =~= list@);
    }
    Ok(())
}

/// Searches the neighbours of node `atarget` of `graph`, from depth `depth` down to
/// `max_depth`, skipping stop words. What it prints or streams is appended to `actions`, in
/// order, each keyword's edge lists taken heaviest first; for dot output the visited links
/// are added to `result`, whose name index plays the part of the name map; Gephi edges are
/// numbered from `*id` on.
pub fn search_neighbors(
    graph: &KeywordGraph,
    atarget: usize,
    depth: u8,
    max_depth: u8,
    stopword: &Vec<String>,
    result: &mut KeywordGraph,
    neighbor_dot_export: bool,
    gephi: &Gephi,
    id: &mut usize,
    actions: &mut Vec<SearchAction>,
) -> (r: Result<(), SearchError>)
    requires
        graph.wf(),
        old(result).wf(),
        depth < max_depth ==> atarget < graph@.nodes.len(),
    ensures
        final(result).wf(),
        state_of(final(result)@, *final(id), final(actions)@, failure_of(r)) == render(
            graph@,
            state_of(old(result)@, *old(id), old(actions)@, None),
            visits(graph@, stop_names(stopword@), atarget, depth as int, max_depth as int),
            search_mode(neighbor_dot_export, gephi.enable),
        ),
        heaviest_first(graph@, neighbor_list(graph@, atarget, true)),
        heaviest_first(graph@, neighbor_list(graph@, atarget, false)),
        keeps_state(
            state_of(old(result)@, *old(id), old(actions)@, None),
            state_of(final(result)@, *final(id), final(actions)@, failure_of(r)),
        ),
        depth >= max_depth ==> r is Ok && final(result)@ == old(result)@ && *final(id) == *old(id)
            && final(actions)@ == old(actions)@,
    decreases max_depth - depth, 3int,
{
    let ghost g = graph@;
    let ghost stop = stop_names(stopword@);
    let ghost s0 = state_of(old(result)@, *old(id), old(actions)@, None);
    proof {
        lemma_by_weight(g, edges_of(g.edges, atarget, g.edges.len() as int, true));
        lemma_by_weight(g, edges_of(g.edges, atarget, g.edges.len() as int, false));
        lemma_search_keeps_result(
            g,
            s0,
            visits(g, stop, atarget, depth as int, max_depth as int),
            search_mode(neighbor_dot_export, gephi.enable),
        );
    }
    if depth >= max_depth {
        return Ok(());
    }
    if contains_name(stopword, graph.name(atarget)) {
        return Ok(());
    }
    let mode = mode_of(neighbor_dot_export, gephi.enable);
    let ghost m = search_mode(neighbor_dot_export, gephi.enable);
    let ghost out_list = neighbor_list(g, atarget, true);
    let ghost in_list = neighbor_list(g, atarget, false);
    let ghost v_out = visits_list(g, stop, atarget, depth as int, max_depth as int, out_list, true);
    let ghost v_in = visits_list(g, stop, atarget, depth as int, max_depth as int, in_list, false);
    let ghost end = seq![Visit::EndOfList];
    proof {
        assert(visits(g, stop, atarget, depth as int, max_depth as int) == v_out + end + v_in + end);
        lemma_render_concat(g, s0, v_out, end + v_in + end, m);
        assert(v_out + end + v_in + end =~= v_out + (end + v_in + end));
        assert(end.drop_last() =~= Seq::<Visit>::empty());
    }
    let first = walk_list(
        graph,
        atarget,
        depth,
        max_depth,
        stopword,
        result,
        neighbor_dot_export,
        gephi,
        mode,
        id,
        actions,
        true,
    );
    if let Err(err) = first {
        proof {
            lemma_render_failed(g, state_of(result@, *id, actions@, Some(err)), end + v_in + end, m);
        }
        return Err(err);
    }
    let ghost s1 = state_of(result@, *id, actions@, None);
    end_of_list(mode, actions);
    let ghost s2 = state_of(result@, *id, actions@, None);
    proof {
        lemma_render_concat(g, s1, end, v_in + end, m);
        assert(end + (v_in + end) =~= end + v_in + end);
        lemma_render_single(g, s1, Visit::EndOfList, m);
        assert(s2 == render_one(g, s1, Visit::EndOfList, m));
        assert(s2 == render(g, s1, end, m));
    }
    let second = walk_list(
        graph,
        atarget,
        depth,
        max_depth,
        stopword,
        result,
        neighbor_dot_export,
        gephi,
        mode,
        id,
        actions,
        false,
    );
    proof {
        lemma_render_concat(g, s2, v_in, end, m);
    }
    if let Err(err) = second {
        proof {
            lemma_render_failed(g, state_of(result@, *id, actions@, Some(err)), end, m);
        }
        return Err(err);
    }
    let ghost s3 = state_of(result@, *id, actions@, None);
    end_of_list(mode, actions);
    proof {
        lemma_render_single(g, s3, Visit::EndOfList, m);
        assert(state_of(result@, *id, actions@, None) == render_one(g, s3, Visit::EndOfList, m));
    }
    Ok(())
}

} // verus!
