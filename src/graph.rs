use vstd::prelude::*;
use petgraph::graph::NodeIndex;
use petgraph::visit::EdgeRef;

verus! {

/// petgraph's adjacency-list graph, held opaque: what it holds is named by
/// `graph_nodes` and `graph_edges`.
#[verifier::external_type_specification]
#[verifier::external_body]
#[verifier::reject_recursive_types(N)]
#[verifier::reject_recursive_types(E)]
#[verifier::reject_recursive_types(Ty)]
#[verifier::reject_recursive_types(Ix)]
pub struct ExGraph<N, E, Ty, Ix>(petgraph::Graph<N, E, Ty, Ix>);

/// petgraph's marker for directed graphs, the default of `Graph`.
#[verifier::external_type_specification]
#[verifier::external_body]
pub struct ExDirected(petgraph::Directed);

/// How many nodes a petgraph graph holds.
pub uninterp spec fn graph_nodes(g: petgraph::Graph<(), i64>) -> nat;

/// The edges of a petgraph graph, in the order they were added, each as
/// (source, target, weight).
pub uninterp spec fn graph_edges(g: petgraph::Graph<(), i64>) -> Seq<(int, int, int)>;

/// Relies on petgraph's `Graph::new`: a graph with no node and no edge.
#[verifier::external_body]
fn graph_new() -> (g: petgraph::Graph<(), i64>)
    ensures
        graph_nodes(g) == 0,
        graph_edges(g) == Seq::<(int, int, int)>::empty(),
{
    petgraph::Graph::new()
}

/// Relies on petgraph's `Graph::add_node`: the new node's index is the old
/// node count; it panics only once `u32::MAX` indices are taken.
#[verifier::external_body]
fn graph_add_node(g: &mut petgraph::Graph<(), i64>) -> (r: u32)
    requires
        graph_nodes(*old(g)) < u32::MAX,
    ensures
        r == graph_nodes(*old(g)),
        graph_nodes(*final(g)) == graph_nodes(*old(g)) + 1,
        graph_edges(*final(g)) == graph_edges(*old(g)),
{
    g.add_node(()).index() as u32
}

/// Relies on petgraph's `Graph::add_edge`: the edge is appended; it panics
/// only on a missing node or once `u32::MAX` edge indices are taken.
#[verifier::external_body]
fn graph_add_edge(g: &mut petgraph::Graph<(), i64>, a: u32, b: u32, w: i64)
    requires
        a < graph_nodes(*old(g)),
        b < graph_nodes(*old(g)),
        graph_edges(*old(g)).len() < u32::MAX,
    ensures
        graph_nodes(*final(g)) == graph_nodes(*old(g)),
        graph_edges(*final(g)) == graph_edges(*old(g)).push((a as int, b as int, w as int)),
{
    g.add_edge(NodeIndex::new(a as usize), NodeIndex::new(b as usize), w);
}

/// Whether `p`, a sequence of edge indices, is a walk from `s` to `t`.
pub open spec fn is_walk(edges: Seq<(int, int, int)>, p: Seq<int>, s: int, t: int) -> bool {
    &&& forall|k: int| 0 <= k < p.len() ==> 0 <= #[trigger] p[k] < edges.len()
    &&& forall|k: int| 0 <= k < p.len() - 1 ==> edges[#[trigger] p[k]].1 == edges[p[k + 1]].0
    &&& p.len() == 0 ==> s == t
    &&& p.len() > 0 ==> edges[p[0]].0 == s && edges[p.last()].1 == t
}

/// The total weight of the edges of `p`.
pub open spec fn walk_cost(edges: Seq<(int, int, int)>, p: Seq<int>) -> int
    decreases p.len(),
{
    if p.len() == 0 {
        0
    } else {
        edges[p[0]].2 + walk_cost(edges, p.drop_first())
    }
}

/// Whether `t` can be reached from `s`.
pub open spec fn reachable(edges: Seq<(int, int, int)>, s: int, t: int) -> bool {
    exists|p: Seq<int>| is_walk(edges, p, s, t)
}

/// What a single-source shortest-path run over `n` nodes gives: the source
/// at 0, every entry the cost of some walk from the source, and no edge out
/// of a reached node that would lead anywhere cheaper. Together these make
/// each entry the least cost of a walk, and leave out exactly the nodes that
/// no walk reaches.
pub open spec fn shortest_distances(
    edges: Seq<(int, int, int)>,
    n: nat,
    source: int,
    d: Seq<Option<i64>>,
) -> bool {
    &&& d.len() == n
    &&& d[source] == Some(0i64)
    &&& forall|v: int|
        0 <= v < n && (#[trigger] d[v]) is Some ==> exists|p: Seq<int>|
            is_walk(edges, p, source, v) && walk_cost(edges, p) == d[v]->0
    &&& forall|e: int|
        0 <= e < edges.len() && (#[trigger] d[edges[e].0]) is Some ==> d[edges[e].1] is Some
            && d[edges[e].1]->0 <= d[edges[e].0]->0 + edges[e].2
}

/// The sum of the weights of the edges.
pub open spec fn weight_total(edges: Seq<(int, int, int)>) -> int
    decreases edges.len(),
{
    if edges.len() == 0 {
        0
    } else {
        weight_total(edges.drop_last()) + edges.last().2
    }
}

/// Whether every edge joins two of the `n` nodes and weighs nothing negative.
pub open spec fn edges_ok(edges: Seq<(int, int, int)>, n: nat) -> bool {
    forall|e: int|
        0 <= e < edges.len() ==> 0 <= (#[trigger] edges[e]).0 < n && 0 <= edges[e].1 < n && 0
            <= edges[e].2
}

/// Relies on petgraph's `algo::dijkstra`: from `start` it finds the least
/// path cost of every node reached, and leaves out the nodes not reached.
/// With weights that are not negative and sum to at most `i64::MAX`, no cost
/// it adds up overflows.
#[verifier::external_body]
fn graph_dijkstra(g: &petgraph::Graph<(), i64>, start: u32) -> (r: Vec<Option<i64>>)
    requires
        start < graph_nodes(*g),
        edges_ok(graph_edges(*g), graph_nodes(*g)),
        weight_total(graph_edges(*g)) <= i64::MAX,
    ensures
        shortest_distances(graph_edges(*g), graph_nodes(*g), start as int, r@),
{
    let m = petgraph::algo::dijkstra(g, NodeIndex::new(start as usize), None, |e| *e.weight());
    (0..g.node_count()).map(|i| m.get(&NodeIndex::new(i)).copied()).collect()
}

/// Following a walk from a reached node reaches its end, at no more than
/// the walk's cost beyond the start.
proof fn lemma_walk_bounds_distance(
    edges: Seq<(int, int, int)>,
    n: nat,
    s: int,
    d: Seq<Option<i64>>,
    u: int,
    v: int,
    p: Seq<int>,
)
    requires
        shortest_distances(edges, n, s, d),
        edges_ok(edges, n),
        0 <= u < n,
        d[u] is Some,
        is_walk(edges, p, u, v),
    ensures
        d[v] is Some,
        d[v]->0 <= d[u]->0 + walk_cost(edges, p),
    decreases p.len(),
{
    if p.len() > 0 {
        let e = p[0];
        let rest = p.drop_first();
        assert(0 <= p[0] < edges.len());
        assert(edges[e].0 == u);
        assert(d[edges[e].0] is Some);
        let m = edges[e].1;
        assert(0 <= m < n) by {
            assert(edges_ok(edges, n));
            assert(0 <= (edges[e]).1 < n);
        }
        assert(is_walk(edges, rest, m, v)) by {
            assert forall|k: int| 0 <= k < rest.len() implies 0 <= #[trigger] rest[k] < edges.len() by {
                assert(rest[k] == p[k + 1]);
            }
            assert forall|k: int| 0 <= k < rest.len() - 1 implies edges[#[trigger] rest[k]].1
                == edges[rest[k + 1]].0 by {
                assert(rest[k] == p[k + 1]);
                assert(rest[k + 1] == p[k + 2]);
            }
            if rest.len() > 0 {
                assert(edges[p[0]].1 == edges[p[1]].0);
                assert(rest.last() == p.last());
            }
        }
        lemma_walk_bounds_distance(edges, n, s, d, m, v, rest);
    }
}

/// Every distance found is no more than the cost of any walk from the
/// source: it is the least cost.
pub proof fn lemma_distance_is_least(
    edges: Seq<(int, int, int)>,
    n: nat,
    source: int,
    d: Seq<Option<i64>>,
    v: int,
    p: Seq<int>,
)
    requires
        shortest_distances(edges, n, source, d),
        edges_ok(edges, n),
        0 <= source < n,
        is_walk(edges, p, source, v),
    ensures
        d[v] is Some,
        d[v]->0 <= walk_cost(edges, p),
{
    lemma_walk_bounds_distance(edges, n, source, d, source, v, p);
}

/// A node that no walk from the source reaches has no distance.
pub proof fn lemma_unreachable_is_absent(
    edges: Seq<(int, int, int)>,
    n: nat,
    source: int,
    d: Seq<Option<i64>>,
    v: int,
)
    requires
        shortest_distances(edges, n, source, d),
        0 <= v < n,
        !reachable(edges, source, v),
    ensures
        d[v] is None,
{
    if d[v] is Some {
        let p = choose|p: Seq<int>| is_walk(edges, p, source, v) && walk_cost(edges, p) == d[v]->0;
        assert(is_walk(edges, p, source, v));
    }
}

/// Two results of a shortest-path run from one source over one graph agree.
pub proof fn lemma_shortest_distances_unique(
    edges: Seq<(int, int, int)>,
    n: nat,
    source: int,
    d1: Seq<Option<i64>>,
    d2: Seq<Option<i64>>,
)
    requires
        shortest_distances(edges, n, source, d1),
        shortest_distances(edges, n, source, d2),
        edges_ok(edges, n),
        0 <= source < n,
    ensures
        d1 == d2,
{
    assert forall|v: int| 0 <= v < n implies #[trigger] d1[v] == d2[v] by {
        if d1[v] is Some {
            let p = choose|p: Seq<int>| is_walk(edges, p, source, v) && walk_cost(edges, p) == d1[v]->0;
            lemma_distance_is_least(edges, n, source, d2, v, p);
        }
        if d2[v] is Some {
            let p = choose|p: Seq<int>| is_walk(edges, p, source, v) && walk_cost(edges, p) == d2[v]->0;
            lemma_distance_is_least(edges, n, source, d1, v, p);
        }
    }
    assert(d1 =~= d2);
}

/// The edges of a simple path over `n` nodes with unit weights: edge `i`
/// leads from node `i` to node `i + 1`.
pub open spec fn unit_path(edges: Seq<(int, int, int)>, n: nat) -> bool {
    &&& n >= 1
    &&& edges.len() == n - 1
    &&& forall|i: int| 0 <= i < edges.len() ==> #[trigger] edges[i] == (i, i + 1, 1int)
}

/// On a unit path, a walk from node 0 is the first edges in order, so its
/// cost and its end are both its length.
proof fn lemma_unit_path_walk(edges: Seq<(int, int, int)>, n: nat, p: Seq<int>, v: int, from: int)
    requires
        unit_path(edges, n),
        0 <= from <= p.len(),
        is_walk(edges, p, 0, v),
    ensures
        forall|k: int| 0 <= k < p.len() ==> #[trigger] p[k] == k,
        walk_cost(edges, p.skip(from)) == p.len() - from,
        v == p.len(),
    decreases p.len() - from,
{
    assert forall|k: int| 0 <= k < p.len() implies #[trigger] p[k] == k by {
        lemma_unit_path_index(edges, n, p, v, k);
    }
    if from < p.len() {
        lemma_unit_path_walk(edges, n, p, v, from + 1);
        assert(p.skip(from).drop_first() == p.skip(from + 1));
        assert(p.skip(from)[0] == p[from]);
    } else {
        assert(p.skip(from).len() == 0);
    }
    if p.len() > 0 {
        assert(p.last() == p.len() - 1);
    }
}

proof fn lemma_unit_path_index(edges: Seq<(int, int, int)>, n: nat, p: Seq<int>, v: int, k: int)
    requires
        unit_path(edges, n),
        0 <= k < p.len(),
        is_walk(edges, p, 0, v),
    ensures
        p[k] == k,
    decreases k,
{
    if k > 0 {
        lemma_unit_path_index(edges, n, p, v, k - 1);
        assert(edges[p[k - 1]].1 == edges[p[k]].0);
    } else {
        assert(edges[p[0]].0 == 0);
    }
}

/// On a simple path of `n` nodes with unit weights, the distance from the
/// first node to node `i` is `i`.
pub proof fn lemma_unit_path_distances(edges: Seq<(int, int, int)>, n: nat, d: Seq<Option<i64>>)
    requires
        unit_path(edges, n),
        shortest_distances(edges, n, 0, d),
    ensures
        forall|i: int| 0 <= i < n ==> #[trigger] d[i] == Some(i as i64),
{
    assert(edges_ok(edges, n));
    assert forall|i: int| 0 <= i < n implies #[trigger] d[i] == Some(i as i64) by {
        let p = Seq::new(i as nat, |k: int| k);
        assert(is_walk(edges, p, 0, i));
        lemma_distance_is_least(edges, n, 0, d, i, p);
        lemma_unit_path_walk(edges, n, p, i, 0);
        assert(p.skip(0) == p);
        let q = choose|q: Seq<int>| is_walk(edges, q, 0, i) && walk_cost(edges, q) == d[i]->0;
        lemma_unit_path_walk(edges, n, q, i, 0);
        assert(q.skip(0) == q);
    }
}

/// Whether edge `e` is tight: both ends have a distance and its weight makes
/// up exactly the difference, so that it lies on a shortest path to its target.
pub open spec fn tight(edges: Seq<(int, int, int)>, d: Seq<Option<i64>>, e: int) -> bool {
    &&& d[edges[e].0] is Some
    &&& d[edges[e].1] is Some
    &&& d[edges[e].1]->0 == d[edges[e].0]->0 + edges[e].2
}

/// Whether `v` lies on a shortest path to one of the goals: a walk of tight
/// edges leads from it to a goal.
pub open spec fn on_shortest_path(
    edges: Seq<(int, int, int)>,
    d: Seq<Option<i64>>,
    goals: Seq<u32>,
    v: int,
) -> bool {
    exists|p: Seq<int>, i: int|
        #![trigger is_walk(edges, p, v, goals[i] as int)]
        0 <= i < goals.len() && is_walk(edges, p, v, goals[i] as int) && forall|k: int|
            0 <= k < p.len() ==> tight(edges, d, #[trigger] p[k])
}

/// How many entries of `s` are true.
pub open spec fn count_true(s: Seq<bool>) -> nat
    decreases s.len(),
{
    if s.len() == 0 {
        0
    } else {
        count_true(s.drop_last()) + if s.last() {
            1nat
        } else {
            0nat
        }
    }
}

proof fn lemma_count_none(s: Seq<bool>)
    requires
        forall|k: int| 0 <= k < s.len() ==> !(#[trigger] s[k]),
    ensures
        count_true(s) == 0,
    decreases s.len(),
{
    if s.len() > 0 {
        lemma_count_none(s.drop_last());
    }
}

proof fn lemma_count_true_bound(s: Seq<bool>)
    ensures
        count_true(s) <= s.len(),
    decreases s.len(),
{
    if s.len() > 0 {
        lemma_count_true_bound(s.drop_last());
    }
}

proof fn lemma_count_true_set(s: Seq<bool>, i: int)
    requires
        0 <= i < s.len(),
        !s[i],
    ensures
        count_true(s.update(i, true)) == count_true(s) + 1,
    decreases s.len(),
{
    if i < s.len() - 1 {
        lemma_count_true_set(s.drop_last(), i);
        assert(s.update(i, true).drop_last() == s.drop_last().update(i, true));
    } else {
        assert(s.update(i, true).drop_last() == s.drop_last());
    }
}

/// A set of nodes that holds the goals and every tight predecessor of its
/// members holds every node on a shortest path to a goal.
proof fn lemma_closed_holds_traced(
    edges: Seq<(int, int, int)>,
    d: Seq<Option<i64>>,
    goals: Seq<u32>,
    marked: Seq<bool>,
    p: Seq<int>,
    v: int,
    gi: int,
)
    requires
        0 <= gi < goals.len(),
        forall|i: int| 0 <= i < goals.len() ==> #[trigger] marked[goals[i] as int],
        forall|e: int|
            0 <= e < edges.len() && #[trigger] marked[edges[e].1] && tight(edges, d, e) ==> marked[edges[e].0],
        is_walk(edges, p, v, goals[gi] as int),
        forall|k: int| 0 <= k < p.len() ==> tight(edges, d, #[trigger] p[k]),
    ensures
        marked[v],
    decreases p.len(),
{
    let g = goals[gi] as int;
    if p.len() == 0 {
        assert(marked[goals[gi] as int]);
    } else {
        let rest = p.drop_first();
        let m = edges[p[0]].1;
        assert(is_walk(edges, rest, m, g)) by {
            assert forall|k: int| 0 <= k < rest.len() implies 0 <= #[trigger] rest[k] < edges.len() by {
                assert(rest[k] == p[k + 1]);
            }
            assert forall|k: int| 0 <= k < rest.len() - 1 implies edges[#[trigger] rest[k]].1
                == edges[rest[k + 1]].0 by {
                assert(rest[k] == p[k + 1]);
                assert(rest[k + 1] == p[k + 2]);
            }
            if rest.len() > 0 {
                assert(edges[p[0]].1 == edges[p[1]].0);
                assert(rest.last() == p.last());
            }
        }
        assert forall|k: int| 0 <= k < rest.len() implies tight(edges, d, #[trigger] rest[k]) by {
            assert(rest[k] == p[k + 1]);
        }
        lemma_closed_holds_traced(edges, d, goals, marked, rest, m, gi);
        assert(tight(edges, d, p[0]));
        assert(marked[edges[p[0]].1]);
    }
}

/// A directed graph with weights that are not negative, built up node by
/// node and edge by edge, on which shortest paths can be asked for.
pub struct WeightedGraph {
    graph: petgraph::Graph<(), i64>,
    edge_list: Vec<(u32, u32, i64)>,
    weight_sum: i64,
}

impl WeightedGraph {
    /// The number of nodes.
    pub closed spec fn node_count(&self) -> nat {
        graph_nodes(self.graph)
    }

    /// The edges, in the order they were added, as (source, target, weight).
    pub closed spec fn edges(&self) -> Seq<(int, int, int)> {
        graph_edges(self.graph)
    }

    /// Every edge joins two nodes and weighs nothing negative, and all the
    /// weights together fit an `i64`.
    pub closed spec fn wf(&self) -> bool {
        &&& edges_ok(graph_edges(self.graph), graph_nodes(self.graph))
        &&& weight_total(graph_edges(self.graph)) == self.weight_sum
        &&& self.weight_sum >= 0
        &&& self.edge_list@.len() == graph_edges(self.graph).len()
        &&& forall|e: int|
            0 <= e < self.edge_list@.len() ==> {
                let (a, b, w) = #[trigger] self.edge_list@[e];
                graph_edges(self.graph)[e] == (a as int, b as int, w as int)
            }
    }

    /// The sum of all edge weights.
    pub closed spec fn total_weight(&self) -> int {
        self.weight_sum as int
    }

    /// Every edge of a well-formed graph joins two of its nodes and weighs
    /// nothing negative.
    pub proof fn lemma_edges_ok(&self)
        requires
            self.wf(),
        ensures
            edges_ok(self.edges(), self.node_count()),
    {
    }

    /// A graph with no node.
    pub fn new() -> (r: WeightedGraph)
        ensures
            r.wf(),
            r.node_count() == 0,
            r.edges() == Seq::<(int, int, int)>::empty(),
            r.total_weight() == 0,
    {
        WeightedGraph { graph: graph_new(), edge_list: Vec::new(), weight_sum: 0 }
    }

    /// Adds a node and returns its index, the old node count.
    pub fn add_node(&mut self) -> (r: u32)
        requires
            old(self).wf(),
            old(self).node_count() < u32::MAX,
        ensures
            final(self).wf(),
            r == old(self).node_count(),
            final(self).node_count() == old(self).node_count() + 1,
            final(self).edges() == old(self).edges(),
            final(self).total_weight() == old(self).total_weight(),
    {
        graph_add_node(&mut self.graph)
    }

    /// Adds an edge from `a` to `b` of weight `w`.
    pub fn add_edge(&mut self, a: u32, b: u32, w: i64)
        requires
            old(self).wf(),
            a < old(self).node_count(),
            b < old(self).node_count(),
            w >= 0,
            old(self).total_weight() + w <= i64::MAX,
            old(self).edges().len() < u32::MAX,
        ensures
            final(self).wf(),
            final(self).node_count() == old(self).node_count(),
            final(self).edges() == old(self).edges().push((a as int, b as int, w as int)),
            final(self).total_weight() == old(self).total_weight() + w,
    {
        let ghost before = graph_edges(self.graph);
        graph_add_edge(&mut self.graph, a, b, w);
        self.edge_list.push((a, b, w));
        self.weight_sum = self.weight_sum + w;
        proof {
            let after = graph_edges(self.graph);
            assert(after.drop_last() == before);
        }
    }

    /// The number of edges.
    pub fn edge_count(&self) -> (r: usize)
        requires
            self.wf(),
        ensures
            r == self.edges().len(),
    {
        self.edge_list.len()
    }

    /// The edge with index `e`.
    pub fn edge(&self, e: usize) -> (r: (u32, u32, i64))
        requires
            self.wf(),
            e < self.edges().len(),
        ensures
            (r.0 as int, r.1 as int, r.2 as int) == self.edges()[e as int],
    {
        self.edge_list[e]
    }

    /// The least cost of a walk from `source` to every node: `None` for the
    /// nodes that no walk reaches.
    pub fn shortest_paths(&self, source: u32) -> (r: Vec<Option<i64>>)
        requires
            self.wf(),
            source < self.node_count(),
        ensures
            shortest_distances(self.edges(), self.node_count(), source as int, r@),
    {
        graph_dijkstra(&self.graph, source)
    }

    /// Marks every node that lies on a shortest path to one of the goals,
    /// walking back from the goals along tight edges: an edge whose weight
    /// makes up exactly the difference of the distances of its ends.
    pub fn trace_back(&self, d: &Vec<Option<i64>>, goals: &Vec<u32>) -> (r: Vec<bool>)
        requires
            self.wf(),
            d@.len() == self.node_count(),
            forall|i: int| 0 <= i < goals@.len() ==> #[trigger] goals@[i] < self.node_count(),
        ensures
            r@.len() == self.node_count(),
            forall|v: int|
                0 <= v < self.node_count() ==> (#[trigger] r@[v] <==> on_shortest_path(
                    self.edges(),
                    d@,
                    goals@,
                    v,
                )),
    {
        let ghost edges = self.edges();
        let n = d.len();
        let mut marked: Vec<bool> = Vec::new();
        let mut i: usize = 0;
        while i < n
            invariant
                i <= n,
                marked@.len() == i,
                forall|k: int| 0 <= k < i ==> !(#[trigger] marked@[k]),
            decreases n - i,
        {
            marked.push(false);
            i = i + 1;
        }
        let mut count: usize = 0;
        proof {
            assert(count_true(marked@) == 0) by {
                lemma_count_none(marked@);
            }
        }
        let mut j: usize = 0;
        while j < goals.len()
            invariant
                self.wf(),
                edges == self.edges(),
                n == d@.len(),
                n == self.node_count(),
                marked@.len() == n,
                j <= goals@.len(),
                count == count_true(marked@),
                forall|i: int| 0 <= i < goals@.len() ==> #[trigger] goals@[i] < n,
                forall|k: int| 0 <= k < j ==> #[trigger] marked@[goals@[k] as int],
                forall|v: int|
                    0 <= v < n && #[trigger] marked@[v] ==> on_shortest_path(edges, d@, goals@, v),
            decreases goals@.len() - j,
        {
            let g = goals[j] as usize;
            if !marked[g] {
                proof {
                    lemma_count_true_set(marked@, g as int);
                    lemma_count_true_bound(marked@.update(g as int, true));
                }
                marked.set(g, true);
                count = count + 1;
            }
            proof {
                assert(is_walk(edges, Seq::<int>::empty(), g as int, goals@[j as int] as int));
            }
            j = j + 1;
        }
        let m = self.edge_count();
        loop
            invariant
                self.wf(),
                edges == self.edges(),
                m == edges.len(),
                n == d@.len(),
                n == self.node_count(),
                marked@.len() == n,
                count == count_true(marked@),
                forall|i: int| 0 <= i < goals@.len() ==> #[trigger] goals@[i] < n,
                forall|k: int| 0 <= k < goals@.len() ==> #[trigger] marked@[goals@[k] as int],
                forall|v: int|
                    0 <= v < n && #[trigger] marked@[v] ==> on_shortest_path(edges, d@, goals@, v),
            ensures
                marked@.len() == n,
                forall|k: int| 0 <= k < goals@.len() ==> #[trigger] marked@[goals@[k] as int],
                forall|v: int|
                    0 <= v < n && #[trigger] marked@[v] ==> on_shortest_path(edges, d@, goals@, v),
                forall|e: int|
                    0 <= e < edges.len() && #[trigger] marked@[edges[e].1] && tight(edges, d@, e)
                        ==> marked@[edges[e].0],
            decreases n - count,
        {
            proof {
                lemma_count_true_bound(marked@);
            }
            let start = count;
            let mut changed = false;
            let mut e: usize = 0;
            while e < m
                invariant
                    self.wf(),
                    edges == self.edges(),
                    m == edges.len(),
                    n == d@.len(),
                    n == self.node_count(),
                    marked@.len() == n,
                    e <= m,
                    count == count_true(marked@),
                    count <= n,
                    start <= count,
                    changed ==> start < count,
                    forall|i: int| 0 <= i < goals@.len() ==> #[trigger] goals@[i] < n,
                    forall|k: int| 0 <= k < goals@.len() ==> #[trigger] marked@[goals@[k] as int],
                    forall|v: int|
                        0 <= v < n && #[trigger] marked@[v] ==> on_shortest_path(edges, d@, goals@, v),
                    !changed ==> forall|f: int|
                        0 <= f < e && #[trigger] marked@[edges[f].1] && tight(edges, d@, f)
                            ==> marked@[edges[f].0],
                decreases m - e,
            {
                let (a, b, w) = self.edge(e);
                proof {
                    assert(edges_ok(edges, n as nat));
                    assert(0 <= edges[e as int].0 < n && 0 <= edges[e as int].1 < n);
                }
                let au = a as usize;
                let bu = b as usize;
                if marked[bu] && !marked[au] {
                    match (d[au], d[bu]) {
                        (Some(da), Some(db)) => {
                            if (da as i128) + (w as i128) == db as i128 {
                                proof {
                                    assert(tight(edges, d@, e as int));
                                    let ghost old_marked = marked@;
                                    assert(on_shortest_path(edges, d@, goals@, b as int));
                                    let (p, gi) = choose|p: Seq<int>, gi: int|
                                        0 <= gi < goals@.len() && is_walk(
                                            edges,
                                            p,
                                            b as int,
                                            goals@[gi] as int,
                                        ) && forall|k: int|
                                            0 <= k < p.len() ==> tight(edges, d@, #[trigger] p[k]);
                                    let g = goals@[gi] as int;
                                    let q = seq![e as int] + p;
                                    assert(is_walk(edges, q, a as int, g)) by {
                                        assert forall|k: int| 0 <= k < q.len() implies 0 <= #[trigger] q[k]
                                            < edges.len() by {
                                            if k > 0 {
                                                assert(q[k] == p[k - 1]);
                                            }
                                        }
                                        assert forall|k: int| 0 <= k < q.len() - 1 implies edges[#[trigger] q[k]].1
                                            == edges[q[k + 1]].0 by {
                                            if k > 0 {
                                                assert(q[k] == p[k - 1]);
                                                assert(q[k + 1] == p[k]);
                                            } else {
                                                assert(q[1] == p[0] || p.len() == 0);
                                            }
                                        }
                                        if p.len() > 0 {
                                            assert(q.last() == p.last());
                                        }
                                    }
                                    assert forall|k: int| 0 <= k < q.len() implies tight(edges, d@, #[trigger] q[k]) by {
                                        if k > 0 {
                                            assert(q[k] == p[k - 1]);
                                        }
                                    }
                                    lemma_count_true_set(marked@, a as int);
                                    lemma_count_true_bound(marked@.update(a as int, true));
                                }
                                let ghost before = marked@;
                                marked.set(au, true);
                                proof {
                                    assert forall|k: int| 0 <= k < goals@.len() implies #[trigger] marked@[goals@[k] as int] by {
                                        assert(before[goals@[k] as int]);
                                    }
                                }
                                count = count + 1;
                                changed = true;
                            }
                        },
                        _ => {},
                    }
                }
                e = e + 1;
            }
            if !changed {
                break;
            }
        }
        proof {
            assert forall|v: int| 0 <= v < n implies (#[trigger] marked@[v] <==> on_shortest_path(
                edges,
                d@,
                goals@,
                v,
            )) by {
                if on_shortest_path(edges, d@, goals@, v) {
                    let (p, gi) = choose|p: Seq<int>, gi: int|
                        0 <= gi < goals@.len() && is_walk(edges, p, v, goals@[gi] as int) && forall|k: int|
                            0 <= k < p.len() ==> tight(edges, d@, #[trigger] p[k]);
                    lemma_closed_holds_traced(edges, d@, goals@, marked@, p, v, gi);
                }
            }
        }
        marked
    }
}

} // verus!
