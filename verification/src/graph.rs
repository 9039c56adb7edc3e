//! The node graph's backing store: a directed `petgraph` graph whose nodes
//! carry nothing and whose edges carry sibling ranks, seen through two
//! adjacency models.

use vstd::prelude::*;

verus! {

/// `petgraph::graph::Graph`, taken as a value that only the functions
/// below look into.
#[verifier::external_type_specification]
#[verifier::external_body]
#[verifier::reject_recursive_types(N)]
#[verifier::reject_recursive_types(E)]
#[verifier::reject_recursive_types(Ty)]
#[verifier::reject_recursive_types(Ix)]
pub struct ExGraph<N, E, Ty, Ix>(petgraph::graph::Graph<N, E, Ty, Ix>);

/// `petgraph::Directed`, the marker of a graph with directed edges.
#[verifier::external_type_specification]
#[verifier::external_body]
pub struct ExDirected(petgraph::Directed);

/// The graph that backs a tree: no node weights, a rank on every edge.
pub type RankGraph = petgraph::graph::Graph<(), usize, petgraph::Directed, u32>;

/// For every node, in index order, its outgoing edges in the order in which
/// they were added: each as the target's index and the edge's weight.
pub uninterp spec fn graph_successors(
    g: petgraph::graph::Graph<(), usize, petgraph::Directed, u32>,
) -> Seq<Seq<(int, int)>>;

/// For every node, in index order, its incoming edges in the order in which
/// they were added: each as the source's index and the edge's weight.
pub uninterp spec fn graph_predecessors(
    g: petgraph::graph::Graph<(), usize, petgraph::Directed, u32>,
) -> Seq<Seq<(int, int)>>;

/// The number of edges in an adjacency model.
pub open spec fn edge_total(adjacency: Seq<Seq<(int, int)>>) -> nat
    decreases adjacency.len(),
{
    if adjacency.len() == 0 {
        0
    } else {
        edge_total(adjacency.drop_last()) + adjacency.last().len()
    }
}

/// A new node without edges leaves the number of edges as it was.
pub proof fn lemma_edge_total_push_empty(adjacency: Seq<Seq<(int, int)>>)
    ensures
        edge_total(adjacency.push(Seq::empty())) == edge_total(adjacency),
{
    assert(adjacency.push(Seq::empty()).drop_last() =~= adjacency);
}

/// One more edge at one node is one more edge in all.
pub proof fn lemma_edge_total_add(adjacency: Seq<Seq<(int, int)>>, a: int, edge: (int, int))
    requires
        0 <= a < adjacency.len(),
    ensures
        edge_total(adjacency.update(a, adjacency[a].push(edge))) == edge_total(adjacency) + 1,
    decreases adjacency.len(),
{
    let after = adjacency.update(a, adjacency[a].push(edge));
    if a == adjacency.len() - 1 {
        assert(after.drop_last() =~= adjacency.drop_last());
    } else {
        lemma_edge_total_add(adjacency.drop_last(), a, edge);
        assert(after.drop_last() =~= adjacency.drop_last().update(
            a,
            adjacency.drop_last()[a].push(edge),
        ));
    }
}

/// The index of the parent of node `i`: the source of its first incoming
/// edge, if it has one.
pub open spec fn parent_in(g: RankGraph, i: int) -> Option<int> {
    if graph_predecessors(g)[i].len() > 0 {
        Some(graph_predecessors(g)[i][0].0)
    } else {
        None
    }
}

/// The rank of node `i` among its siblings: the weight of its first
/// incoming edge.
pub open spec fn rank_in(g: RankGraph, i: int) -> int {
    graph_predecessors(g)[i][0].1
}

/// The indices of the children of node `i`, in the order in which their
/// edges were added.
pub open spec fn children_in(g: RankGraph, i: int) -> Seq<int> {
    graph_successors(g)[i].map_values(|e: (int, int)| e.0)
}

/// The edges form a forest in which every child has a larger index than
/// its parent, the children of a node are listed by increasing index, and
/// the rank of a child is its place in that list.
pub open spec fn ranked_forest(g: RankGraph) -> bool {
    let succ = graph_successors(g);
    let pred = graph_predecessors(g);
    &&& succ.len() == pred.len()
    &&& succ.len() <= u32::MAX
    &&& edge_total(succ) <= succ.len()
    &&& forall|a: int, k: int|
        0 <= a < succ.len() && 0 <= k < succ[a].len() ==> {
            let e = #[trigger] succ[a][k];
            &&& a < e.0 < succ.len()
            &&& e.1 == k
            &&& pred[e.0] == seq![(a, k)]
        }
    &&& forall|a: int, j: int, k: int|
        0 <= a < succ.len() && 0 <= j < k < succ[a].len() ==> (#[trigger] succ[a][j]).0 < (
        #[trigger] succ[a][k]).0
    &&& forall|b: int|
        0 <= b < pred.len() ==> {
            let p = #[trigger] pred[b];
            &&& p.len() <= 1
            &&& p.len() == 1 ==> {
                &&& 0 <= p[0].0 < b
                &&& 0 <= p[0].1 < succ[p[0].0].len()
                &&& succ[p[0].0][p[0].1] == (b, p[0].1)
            }
        }
}

/// What a ranked forest says of parents and children: a parent has a
/// smaller index than its child and lists it at the child's rank; each
/// listed child has the node as its parent and its place as its rank;
/// children are listed by increasing index.
pub proof fn lemma_ranked_forest(g: RankGraph)
    requires
        ranked_forest(g),
    ensures
        forall|i: int|
            0 <= i < graph_successors(g).len() && (#[trigger] parent_in(g, i)).is_some() ==> {
                let p = parent_in(g, i).unwrap();
                &&& 0 <= p < i
                &&& 0 <= rank_in(g, i) < children_in(g, p).len()
                &&& children_in(g, p)[rank_in(g, i)] == i
            },
        forall|a: int, k: int|
            0 <= a < graph_successors(g).len() && 0 <= k < children_in(g, a).len() ==> {
                let c = #[trigger] children_in(g, a)[k];
                &&& a < c < graph_successors(g).len()
                &&& parent_in(g, c) == Some(a)
                &&& rank_in(g, c) == k
            },
        forall|a: int, j: int, k: int|
            0 <= a < graph_successors(g).len() && 0 <= j < k < children_in(g, a).len()
                ==> #[trigger] children_in(g, a)[j] < #[trigger] children_in(g, a)[k],
{
    let succ = graph_successors(g);
    let pred = graph_predecessors(g);
    assert forall|i: int|
        0 <= i < succ.len() && (#[trigger] parent_in(g, i)).is_some() implies ({
        let p = parent_in(g, i).unwrap();
        &&& 0 <= p < i
        &&& 0 <= rank_in(g, i) < children_in(g, p).len()
        &&& children_in(g, p)[rank_in(g, i)] == i
    }) by {
        let q = pred[i];
        assert(q.len() == 1);
        assert(succ[q[0].0][q[0].1] == (i, q[0].1));
    }
    assert forall|a: int, k: int| 0 <= a < succ.len() && 0 <= k < children_in(g, a).len() implies ({
        let c = #[trigger] children_in(g, a)[k];
        &&& a < c < succ.len()
        &&& parent_in(g, c) == Some(a)
        &&& rank_in(g, c) == k
    }) by {
        let e = succ[a][k];
        assert(pred[e.0] == seq![(a, k)]);
    }
    assert forall|a: int, j: int, k: int|
        0 <= a < succ.len() && 0 <= j < k < children_in(g, a).len() implies #[trigger] children_in(
        g,
        a,
    )[j] < #[trigger] children_in(g, a)[k] by {
        assert(succ[a][j].0 < succ[a][k].0);
    }
}

/// `Graph::new`: a graph without nodes.
#[verifier::external_body]
pub(crate) fn graph_new() -> (g: RankGraph)
    ensures
        graph_successors(g) == Seq::<Seq<(int, int)>>::empty(),
        graph_predecessors(g) == Seq::<Seq<(int, int)>>::empty(),
{
    petgraph::graph::Graph::new()
}

/// `Graph::add_node`: appends a node without edges and returns its index,
/// the number of nodes before the call. The graph indexes its nodes with
/// `u32` and keeps the largest value for itself, so the call fails at
/// `u32::MAX` nodes: the contract leaves that out.
#[verifier::external_body]
pub(crate) fn graph_add_node(g: &mut RankGraph) -> (index: usize)
    requires
        graph_successors(*old(g)).len() < u32::MAX,
    ensures
        index == graph_successors(*old(g)).len(),
        graph_successors(*final(g)) == graph_successors(*old(g)).push(Seq::empty()),
        graph_predecessors(*final(g)) == graph_predecessors(*old(g)).push(Seq::empty()),
{
    g.add_node(()).index()
}

/// `Graph::add_edge`: appends an edge from `a` to `b` with the given
/// weight. It becomes the last outgoing edge of `a` and the last incoming
/// edge of `b`; nothing else changes. The call fails for a node that does
/// not exist and at `u32::MAX` edges: the contract leaves both out.
#[verifier::external_body]
pub(crate) fn graph_add_edge(g: &mut RankGraph, a: usize, b: usize, weight: usize)
    requires
        a < graph_successors(*old(g)).len(),
        b < graph_successors(*old(g)).len(),
        graph_successors(*old(g)).len() == graph_predecessors(*old(g)).len(),
        graph_successors(*old(g)).len() <= u32::MAX,
        edge_total(graph_successors(*old(g))) < u32::MAX,
    ensures
        graph_successors(*final(g)) == graph_successors(*old(g)).update(
            a as int,
            graph_successors(*old(g))[a as int].push((b as int, weight as int)),
        ),
        graph_predecessors(*final(g)) == graph_predecessors(*old(g)).update(
            b as int,
            graph_predecessors(*old(g))[b as int].push((a as int, weight as int)),
        ),
{
    g.add_edge(petgraph::graph::NodeIndex::new(a), petgraph::graph::NodeIndex::new(b), weight);
}

/// `Graph::edges_directed` with `Direction::Outgoing`: the outgoing edges
/// of `a`, the one added last first, each as target and weight.
#[verifier::external_body]
pub(crate) fn graph_outgoing(g: &RankGraph, a: usize) -> (edges: Vec<(usize, usize)>)
    requires
        a < graph_successors(*g).len(),
        graph_successors(*g).len() <= u32::MAX,
    ensures
        edges@.len() == graph_successors(*g)[a as int].len(),
        forall|k: int|
            0 <= k < edges@.len() ==> (#[trigger] edges@[k].0 as int, edges@[k].1 as int)
                == graph_successors(*g)[a as int][edges@.len() - 1 - k],
{
    g.edges_directed(petgraph::graph::NodeIndex::new(a), petgraph::Direction::Outgoing)
        .map(|e| (petgraph::visit::EdgeRef::target(&e).index(), *e.weight()))
        .collect()
}

/// `Graph::edges_directed` with `Direction::Incoming`: the incoming edges
/// of `a`, the one added last first, each as source and weight.
#[verifier::external_body]
pub(crate) fn graph_incoming(g: &RankGraph, a: usize) -> (edges: Vec<(usize, usize)>)
    requires
        a < graph_predecessors(*g).len(),
        graph_predecessors(*g).len() <= u32::MAX,
    ensures
        edges@.len() == graph_predecessors(*g)[a as int].len(),
        forall|k: int|
            0 <= k < edges@.len() ==> (#[trigger] edges@[k].0 as int, edges@[k].1 as int)
                == graph_predecessors(*g)[a as int][edges@.len() - 1 - k],
{
    g.edges_directed(petgraph::graph::NodeIndex::new(a), petgraph::Direction::Incoming)
        .map(|e| (petgraph::visit::EdgeRef::source(&e).index(), *e.weight()))
        .collect()
}

/// `Graph::externals` with `Direction::Incoming`: the indices of the nodes
/// without incoming edges, in increasing order.
#[verifier::external_body]
pub(crate) fn graph_sources(g: &RankGraph) -> (nodes: Vec<usize>)
    ensures
        forall|k: int|
            0 <= k < nodes@.len() ==> (#[trigger] nodes@[k]) < graph_predecessors(*g).len()
                && graph_predecessors(*g)[nodes@[k] as int].len() == 0,
        forall|j: int, k: int| 0 <= j < k < nodes@.len() ==> nodes@[j] < nodes@[k],
        forall|i: int|
            0 <= i < graph_predecessors(*g).len() && (#[trigger] graph_predecessors(*g)[i]).len()
                == 0 ==> exists|k: int| 0 <= k < nodes@.len() && nodes@[k] == i,
{
    g.externals(petgraph::Direction::Incoming).map(|n| n.index()).collect()
}

/// `Graph::externals` with `Direction::Outgoing`: the indices of the nodes
/// without outgoing edges, in increasing order.
#[verifier::external_body]
pub(crate) fn graph_sinks(g: &RankGraph) -> (nodes: Vec<usize>)
    ensures
        forall|k: int|
            0 <= k < nodes@.len() ==> (#[trigger] nodes@[k]) < graph_successors(*g).len()
                && graph_successors(*g)[nodes@[k] as int].len() == 0,
        forall|j: int, k: int| 0 <= j < k < nodes@.len() ==> nodes@[j] < nodes@[k],
        forall|i: int|
            0 <= i < graph_successors(*g).len() && (#[trigger] graph_successors(*g)[i]).len()
                == 0 ==> exists|k: int| 0 <= k < nodes@.len() && nodes@[k] == i,
{
    g.externals(petgraph::Direction::Outgoing).map(|n| n.index()).collect()
}

/// `Itertools::sorted_by_key` with the weight of an edge as its key: the
/// same edges by ascending weight, edges of equal weight in the order in
/// which they came.
#[verifier::external_body]
fn sorted_by_weight(edges: Vec<(usize, usize)>) -> (sorted: Vec<(usize, usize)>)
    ensures
        sorted@.to_multiset() == edges@.to_multiset(),
        forall|j: int, k: int|
            0 <= j < k < sorted@.len() ==> (#[trigger] sorted@[j]).1 <= (#[trigger] sorted@[k]).1,
        forall|j: int, k: int|
            0 <= j < k < sorted@.len() && (#[trigger] sorted@[j]).1 == (#[trigger] sorted@[k]).1
                ==> exists|p: int, q: int|
                0 <= p < q < edges@.len() && edges@[p] == sorted@[j] && edges@[q] == sorted@[k],
{
    itertools::Itertools::sorted_by_key(edges.into_iter(), |e| e.1).collect()
}

/// Numbers below `k` that grow from each place to the next, as many as
/// `k`, are the numbers from zero up.
proof fn lemma_growing_fills(weights: Seq<int>, at: int)
    requires
        forall|j: int| 0 <= j < weights.len() ==> 0 <= #[trigger] weights[j] < weights.len(),
        forall|j: int, k: int| 0 <= j < k < weights.len() ==> weights[j] < weights[k],
        0 <= at < weights.len(),
    ensures
        weights[at] == at,
{
    lemma_growing_from(weights, at);
    lemma_growing_to(weights, at);
}

/// Numbers from zero on that grow from each place to the next are at least
/// their place.
proof fn lemma_growing_from(weights: Seq<int>, at: int)
    requires
        forall|j: int| 0 <= j < weights.len() ==> 0 <= #[trigger] weights[j],
        forall|j: int, k: int| 0 <= j < k < weights.len() ==> weights[j] < weights[k],
        0 <= at < weights.len(),
    ensures
        weights[at] >= at,
    decreases at,
{
    if at > 0 {
        lemma_growing_from(weights, at - 1);
        assert(weights[at - 1] < weights[at]);
    }
}

/// Numbers below their count that grow from each place to the next are at
/// most their place.
proof fn lemma_growing_to(weights: Seq<int>, at: int)
    requires
        forall|j: int| 0 <= j < weights.len() ==> #[trigger] weights[j] < weights.len(),
        forall|j: int, k: int| 0 <= j < k < weights.len() ==> weights[j] < weights[k],
        0 <= at < weights.len(),
    ensures
        weights[at] <= at,
    decreases weights.len() - at,
{
    if at < weights.len() - 1 {
        lemma_growing_to(weights, at + 1);
        assert(weights[at] < weights[at + 1]);
    }
}

/// The indices of the children of node `a`, by ascending rank. In a ranked
/// forest that is the order in which their edges were added.
pub fn graph_children(g: &RankGraph, a: usize) -> (r: Vec<usize>)
    requires
        ranked_forest(*g),
        a < graph_successors(*g).len(),
    ensures
        r@.map_values(|c: usize| c as int) == children_in(*g, a as int),
{
    let edges = graph_outgoing(g, a);
    let ghost listed = graph_successors(*g)[a as int];
    let ghost given = edges@;
    let sorted = sorted_by_weight(edges);
    proof {
        let count = listed.len() as int;
        assert(given.len() == count);
        given.to_multiset_ensures();
        sorted@.to_multiset_ensures();
        assert(sorted@.len() == count);
        assert forall|j: int| 0 <= j < count implies (given[j].0 as int, given[j].1 as int)
            == listed[count - 1 - j] && given[j].1 == count - 1 - j by {
            assert((#[trigger] given[j].0 as int, given[j].1 as int) == listed[count - 1 - j]);
            assert(listed[count - 1 - j].1 == count - 1 - j);
        }
        assert(given.no_duplicates()) by {
            assert forall|i: int, j: int|
                0 <= i < given.len() && 0 <= j < given.len() && i != j implies given[i]
                != given[j] by {
                assert(given[i].1 == count - 1 - i);
                assert(given[j].1 == count - 1 - j);
            }
        }
        given.lemma_multiset_has_no_duplicates();
        sorted@.lemma_multiset_has_no_duplicates_conv();
        let place = |j: int|
            choose|p: int| 0 <= p < given.len() && given[p] == sorted@[j];
        assert forall|j: int| 0 <= j < count implies 0 <= place(j) < count && given[place(j)]
            == sorted@[j] by {
            assert(sorted@.contains(sorted@[j]));
            assert(given.to_multiset().count(sorted@[j]) > 0);
            assert(given.contains(sorted@[j]));
        }
        let weights = Seq::new(count as nat, |j: int| sorted@[j].1 as int);
        assert forall|j: int| 0 <= j < weights.len() implies 0 <= #[trigger] weights[j]
            < weights.len() by {
            assert(given[place(j)].1 == count - 1 - place(j));
        }
        assert forall|j: int, k: int| 0 <= j < k < weights.len() implies weights[j]
            < weights[k] by {
            assert(sorted@[j].1 <= sorted@[k].1);
            if sorted@[j].1 == sorted@[k].1 {
                assert(given[place(j)].1 == count - 1 - place(j));
                assert(given[place(k)].1 == count - 1 - place(k));
                assert(sorted@[j] == sorted@[k]);
            }
        }
        assert forall|j: int| 0 <= j < count implies (sorted@[j].0 as int, sorted@[j].1 as int)
            == listed[j] by {
            lemma_growing_fills(weights, j);
            assert(weights[j] == sorted@[j].1);
            assert(given[place(j)].1 == count - 1 - place(j));
            assert((given[place(j)].0 as int, given[place(j)].1 as int) == listed[count - 1
                - place(j)]);
        }
    }
    let mut children: Vec<usize> = Vec::new();
    let mut k: usize = 0;
    while k < sorted.len()
        invariant
            k <= sorted@.len(),
            sorted@.len() == listed.len(),
            children@.len() == k,
            forall|j: int|
                0 <= j < sorted@.len() ==> (#[trigger] sorted@[j].0 as int, sorted@[j].1 as int)
                    == listed[j],
            forall|j: int| 0 <= j < k ==> (#[trigger] children@[j]) == listed[j].0,
        decreases sorted@.len() - k,
    {
        assert((sorted@[k as int].0 as int, sorted@[k as int].1 as int) == listed[k as int]);
        children.push(sorted[k].0);
        k += 1;
    }
    assert(children@.map_values(|c: usize| c as int) =~= children_in(*g, a as int));
    children
}

} // verus!
