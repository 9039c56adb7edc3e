//! The processing order of a tree: level by level, parents before
//! children, siblings by rank.

use vstd::prelude::*;
use vstd::set_lib::{lemma_int_range, lemma_len_subset, lemma_subset_equality, set_int_range};
use crate::graph::{
    children_in, graph_children, graph_sources, graph_successors, lemma_ranked_forest, parent_in,
    rank_in, ranked_forest, RankGraph,
};

verus! {

/// A list of node indices as integers.
pub open spec fn as_ints(indices: Seq<usize>) -> Seq<int> {
    indices.map_values(|i: usize| i as int)
}

/// Whether `x` may stand before `y` in the processing order: a root
/// stands before every node that has a parent, roots stand by increasing
/// index, and children of one parent by increasing rank.
pub open spec fn may_precede(g: RankGraph, x: int, y: int) -> bool {
    &&& parent_in(g, y).is_none() ==> parent_in(g, x).is_none() && x < y
    &&& parent_in(g, x).is_some() && parent_in(g, x) == parent_in(g, y) ==> rank_in(g, x)
        < rank_in(g, y)
}

/// Whether `order` is the processing order of the forest `g`: it holds
/// every node once; a parent stands before its children; roots stand
/// first, by increasing index; children of one parent stand by increasing
/// rank; and the children of a node that stands earlier stand before the
/// children of a node that stands later.
pub open spec fn level_order(g: RankGraph, order: Seq<int>) -> bool {
    let n = graph_successors(g).len() as int;
    &&& order.len() == n
    &&& order.no_duplicates()
    &&& forall|k: int| 0 <= k < n ==> 0 <= #[trigger] order[k] < n
    &&& forall|b: int|
        0 <= b < n && parent_in(g, #[trigger] order[b]).is_some() ==> exists|a: int|
            0 <= a < b && order[a] == parent_in(g, order[b]).unwrap()
    &&& forall|a: int, b: int|
        0 <= a < b < n ==> may_precede(g, #[trigger] order[a], #[trigger] order[b])
    &&& forall|a: int, b: int|
        0 <= a < b < n && parent_in(g, #[trigger] order[a]).is_some() && parent_in(
            g,
            #[trigger] order[b],
        ).is_some() ==> order.index_of(parent_in(g, order[a]).unwrap()) <= order.index_of(
            parent_in(g, order[b]).unwrap(),
        )
}

/// In a list without repetitions an entry is found at its own place.
pub proof fn lemma_index_of_entry(order: Seq<int>, at: int)
    requires
        order.no_duplicates(),
        0 <= at < order.len(),
    ensures
        order.index_of(order[at]) == at,
{
    let found = order.index_of(order[at]);
    assert(0 <= found < order.len() && order[found] == order[at]);
}

/// A list of distinct indices below `n` is no longer than `n`, and if it
/// holds every index below `n` it has length `n`.
pub proof fn lemma_distinct_indices(order: Seq<int>, n: int)
    requires
        0 <= n,
        order.no_duplicates(),
        forall|k: int| 0 <= k < order.len() ==> 0 <= #[trigger] order[k] < n,
    ensures
        order.len() <= n,
        (forall|i: int| 0 <= i < n ==> order.contains(i)) ==> order.len() == n,
{
    order.unique_seq_to_set();
    lemma_int_range(0, n);
    assert forall|x: int| order.to_set().contains(x) implies set_int_range(0, n).contains(x) by {
        let k = choose|k: int| 0 <= k < order.len() && order[k] == x;
        assert(0 <= order[k] < n);
    }
    lemma_len_subset(order.to_set(), set_int_range(0, n));
    if forall|i: int| 0 <= i < n ==> order.contains(i) {
        assert forall|x: int| set_int_range(0, n).contains(x) implies order.to_set().contains(
            x,
        ) by {
            assert(order.contains(x));
        }
        lemma_len_subset(set_int_range(0, n), order.to_set());
    }
}

/// A list of `n` distinct indices below `n` holds every index below `n`.
pub proof fn lemma_permutation_holds_all(order: Seq<int>, n: int)
    requires
        order.len() == n,
        order.no_duplicates(),
        forall|k: int| 0 <= k < n ==> 0 <= #[trigger] order[k] < n,
    ensures
        forall|i: int| 0 <= i < n ==> order.contains(i),
{
    order.unique_seq_to_set();
    lemma_int_range(0, n);
    assert forall|x: int| order.to_set().contains(x) implies set_int_range(0, n).contains(x) by {
        let k = choose|k: int| 0 <= k < order.len() && order[k] == x;
        assert(0 <= order[k] < n);
    }
    lemma_len_subset(order.to_set(), set_int_range(0, n));
    lemma_subset_equality(order.to_set(), set_int_range(0, n));
    assert forall|i: int| 0 <= i < n implies order.contains(i) by {
        assert(set_int_range(0, n).contains(i));
        assert(order.to_set().contains(i));
    }
}

/// Two processing orders of one forest agree on their first `k` entries.
proof fn lemma_level_orders_agree(g: RankGraph, first: Seq<int>, second: Seq<int>, k: int)
    requires
        ranked_forest(g),
        level_order(g, first),
        level_order(g, second),
        0 <= k <= graph_successors(g).len(),
    ensures
        forall|j: int| 0 <= j < k ==> first[j] == second[j],
    decreases k,
{
    if k > 0 {
        lemma_level_orders_agree(g, first, second, k - 1);
        let n = graph_successors(g).len() as int;
        let at = k - 1;
        let x = first[at];
        let y = second[at];
        if x != y {
            lemma_permutation_holds_all(first, n);
            lemma_permutation_holds_all(second, n);
            assert(second.contains(x));
            assert(first.contains(y));
            let x2 = choose|i: int| 0 <= i < second.len() && second[i] == x;
            let y1 = choose|i: int| 0 <= i < first.len() && first[i] == y;
            assert(x2 > at) by {
                if x2 < at {
                    assert(first[x2] == second[x2]);
                }
            }
            assert(y1 > at) by {
                if y1 < at {
                    assert(first[y1] == second[y1]);
                }
            }
            assert(may_precede(g, first[at], first[y1]));
            assert(may_precede(g, second[at], second[x2]));
            if parent_in(g, x).is_some() && parent_in(g, y).is_some() {
                let p = parent_in(g, x).unwrap();
                let q = parent_in(g, y).unwrap();
                if p != q {
                    let a = choose|a: int| 0 <= a < at && first[a] == parent_in(g, first[at]).unwrap();
                    let b = choose|b: int|
                        0 <= b < at && second[b] == parent_in(g, second[at]).unwrap();
                    assert(first[b] == second[b]);
                    assert(first[a] == second[a]);
                    lemma_index_of_entry(first, a);
                    lemma_index_of_entry(first, b);
                    lemma_index_of_entry(second, a);
                    lemma_index_of_entry(second, b);
                    assert(first.index_of(parent_in(g, first[at]).unwrap()) <= first.index_of(
                        parent_in(g, first[y1]).unwrap(),
                    ));
                    assert(second.index_of(parent_in(g, second[at]).unwrap()) <= second.index_of(
                        parent_in(g, second[x2]).unwrap(),
                    ));
                    assert(a == b);
                }
            }
        }
    }
}

/// A forest has one processing order: two lists that both are its
/// processing order are the same list. So the order depends on the tree
/// alone, and sequencing an unchanged tree again gives the same list.
pub proof fn lemma_level_order_unique(g: RankGraph, first: Seq<int>, second: Seq<int>)
    requires
        ranked_forest(g),
        level_order(g, first),
        level_order(g, second),
    ensures
        first == second,
{
    lemma_level_orders_agree(g, first, second, graph_successors(g).len() as int);
    assert(first =~= second);
}

/// In the processing order every node stands after all of its ancestors:
/// after its parent, and so after its parent's parent, and so on.
pub proof fn lemma_level_order_ancestors(g: RankGraph, order: Seq<int>, above: int, below: int)
    requires
        ranked_forest(g),
        level_order(g, order),
        0 <= below < graph_successors(g).len(),
        is_ancestor(g, above, below),
    ensures
        order.contains(above),
        order.contains(below),
        order.index_of(above) < order.index_of(below),
    decreases below,
{
    lemma_ranked_forest(g);
    let n = graph_successors(g).len() as int;
    lemma_permutation_holds_all(order, n);
    let b = order.index_of(below);
    assert(order.contains(below));
    assert(0 <= b < n && order[b] == below);
    let p = parent_in(g, below).unwrap();
    let a = choose|a: int| 0 <= a < b && order[a] == parent_in(g, order[b]).unwrap();
    lemma_index_of_entry(order, a);
    if p != above {
        lemma_level_order_ancestors(g, order, above, p);
    }
}

/// Whether `above` is the parent of `below`, or the parent of its parent,
/// and so on.
pub open spec fn is_ancestor(g: RankGraph, above: int, below: int) -> bool
    decreases below,
{
    if 0 <= below < graph_successors(g).len() && ranked_forest(g) {
        match parent_in(g, below) {
            Some(p) => 0 <= p < below && (p == above || is_ancestor(g, above, p)),
            None => false,
        }
    } else {
        false
    }
}

/// A list that holds every root and, with each node, all of the node's
/// children holds every node.
proof fn lemma_all_reached(g: RankGraph, order: Seq<int>, i: int)
    requires
        ranked_forest(g),
        0 <= i < graph_successors(g).len(),
        forall|x: int|
            0 <= x < graph_successors(g).len() && (#[trigger] parent_in(g, x)).is_none()
                ==> order.contains(x),
        forall|j: int, c: int|
            0 <= j < order.len() && 0 <= order[j] < graph_successors(g).len() && 0 <= c
                < children_in(g, order[j]).len() ==> order.contains(
                #[trigger] children_in(g, order[j])[c],
            ),
    ensures
        order.contains(i),
    decreases i,
{
    lemma_ranked_forest(g);
    if parent_in(g, i).is_some() {
        let p = parent_in(g, i).unwrap();
        lemma_all_reached(g, order, p);
        let j = choose|j: int| 0 <= j < order.len() && order[j] == p;
        assert(children_in(g, order[j])[rank_in(g, i)] == i);
    }
}

/// The processing order of a forest: the roots by increasing index, then
/// the children of each node in turn, by increasing rank.
pub fn stable_toposort(graph: &RankGraph) -> (sorted: Vec<usize>)
    requires
        ranked_forest(*graph),
    ensures
        level_order(*graph, as_ints(sorted@)),
{
    let mut sorted = graph_sources(graph);
    let ghost g = *graph;
    let ghost n = graph_successors(g).len() as int;
    let ghost roots = sorted@.len() as int;
    let ghost mut from: Seq<int> = Seq::new(sorted@.len(), |k: int| -1);
    let mut head: usize = 0;
    proof {
        lemma_ranked_forest(g);
        assert(as_ints(sorted@).no_duplicates()) by {
            assert forall|j: int, k: int|
                0 <= j < sorted@.len() && 0 <= k < sorted@.len() && j != k implies as_ints(
                sorted@,
            )[j] != as_ints(sorted@)[k] by {
                if j < k {
                    assert(sorted@[j] < sorted@[k]);
                } else {
                    assert(sorted@[k] < sorted@[j]);
                }
            }
        }
    }
    while head < sorted.len()
        invariant
            g == *graph,
            ranked_forest(g),
            n == graph_successors(g).len(),
            0 <= roots <= sorted@.len(),
            head <= sorted@.len(),
            from.len() == sorted@.len(),
            as_ints(sorted@).no_duplicates(),
            forall|k: int| 0 <= k < sorted@.len() ==> (#[trigger] sorted@[k]) < n,
            forall|k: int| 0 <= k < roots ==> parent_in(g, (#[trigger] sorted@[k]) as int).is_none(),
            forall|j: int, k: int| 0 <= j < k < roots ==> sorted@[j] < sorted@[k],
            forall|x: int|
                0 <= x < n && (#[trigger] parent_in(g, x)).is_none() ==> exists|k: int|
                    0 <= k < roots && sorted@[k] == x,
            forall|k: int|
                roots <= k < sorted@.len() ==> 0 <= (#[trigger] from[k]) < head && from[k] < k
                    && parent_in(g, sorted@[k] as int) == Some(sorted@[from[k]] as int),
            forall|j: int, k: int|
                roots <= j < k < sorted@.len() ==> (#[trigger] from[j]) <= (#[trigger] from[k]) && (
                from[j] == from[k] ==> rank_in(g, sorted@[j] as int) < rank_in(
                    g,
                    sorted@[k] as int,
                )),
            forall|j: int, c: int|
                0 <= j < head && 0 <= c < children_in(g, sorted@[j] as int).len() ==> as_ints(
                    sorted@,
                ).contains(#[trigger] children_in(g, sorted@[j] as int)[c]),
        decreases n - head,
    {
        proof {
            lemma_distinct_indices(as_ints(sorted@), n);
        }
        let node = sorted[head];
        let children = graph_children(graph, node);
        let ghost listed = children_in(g, node as int);
        let ghost base = sorted@.len() as int;
        let ghost before = sorted@;
        assert(listed.len() == children@.len()) by {
            assert(as_ints(children@).len() == children@.len());
        }
        let mut k: usize = 0;
        while k < children.len()
            invariant
                g == *graph,
                ranked_forest(g),
                n == graph_successors(g).len(),
                0 <= roots <= base,
                head < base,
                node == sorted@[head as int],
                node == before[head as int],
                listed == children_in(g, node as int),
                as_ints(children@) == listed,
                listed.len() == children@.len(),
                k <= children@.len(),
                sorted@.len() == base + k,
                from.len() == sorted@.len(),
                before.len() == base,
                forall|j: int| 0 <= j < base ==> sorted@[j] == before[j],
                forall|c: int| 0 <= c < k ==> (#[trigger] sorted@[base + c]) == listed[c],
                as_ints(sorted@).no_duplicates(),
                forall|j: int| 0 <= j < sorted@.len() ==> (#[trigger] sorted@[j]) < n,
                forall|j: int|
                    0 <= j < roots ==> parent_in(g, (#[trigger] sorted@[j]) as int).is_none(),
                forall|j: int|
                    roots <= j < base ==> 0 <= (#[trigger] from[j]) < head && from[j] < j
                        && parent_in(g, sorted@[j] as int) == Some(sorted@[from[j]] as int),
                forall|j: int| base <= j < sorted@.len() ==> (#[trigger] from[j]) == head,
                forall|i: int, j: int|
                    roots <= i < j < base ==> (#[trigger] from[i]) <= (#[trigger] from[j]) && (
                    from[i] == from[j] ==> rank_in(g, sorted@[i] as int) < rank_in(
                        g,
                        sorted@[j] as int,
                    )),
            decreases children@.len() - k,
        {
            let child = children[k];
            proof {
                lemma_ranked_forest(g);
                assert(as_ints(children@)[k as int] == child);
                assert(listed[k as int] == child);
                assert(parent_in(g, child as int) == Some(node as int));
                let grown = sorted@.push(child);
                assert forall|i: int, j: int|
                    0 <= i < grown.len() && 0 <= j < grown.len() && i != j implies as_ints(
                    grown,
                )[i] != as_ints(grown)[j] by {
                    let low = if i < j {
                        i
                    } else {
                        j
                    };
                    let high = if i < j {
                        j
                    } else {
                        i
                    };
                    if high < sorted@.len() {
                        assert(as_ints(sorted@)[low] != as_ints(sorted@)[high]);
                    } else {
                        if low < roots {
                            assert(parent_in(g, sorted@[low] as int).is_none());
                        } else if low < base {
                            assert(as_ints(sorted@)[from[low]] != as_ints(sorted@)[head as int]);
                        } else {
                            assert(sorted@[base + (low - base)] == listed[low - base]);
                            assert(listed[low - base] < listed[k as int]);
                        }
                    }
                }
                from = from.push(head as int);
            }
            sorted.push(child);
            k += 1;
        }
        proof {
            lemma_ranked_forest(g);
            assert forall|j: int|
                roots <= j < sorted@.len() implies 0 <= (#[trigger] from[j]) < head + 1 && from[j]
                < j && parent_in(g, sorted@[j] as int) == Some(sorted@[from[j]] as int) by {
                if j >= base {
                    assert(sorted@[base + (j - base)] == listed[j - base]);
                }
            }
            assert forall|i: int, j: int| roots <= i < j < sorted@.len() implies (
            #[trigger] from[i]) <= (#[trigger] from[j]) && (from[i] == from[j] ==> rank_in(
                g,
                sorted@[i] as int,
            ) < rank_in(g, sorted@[j] as int)) by {
                if j >= base {
                    assert(sorted@[base + (j - base)] == listed[j - base]);
                    if i >= base {
                        assert(sorted@[base + (i - base)] == listed[i - base]);
                    }
                }
            }
            assert forall|j: int, c: int|
                0 <= j < head + 1 && 0 <= c < children_in(
                    g,
                    sorted@[j] as int,
                ).len() implies as_ints(sorted@).contains(
                #[trigger] children_in(g, sorted@[j] as int)[c],
            ) by {
                if j < head {
                    assert(sorted@[j] == before[j]);
                    let w = choose|w: int|
                        0 <= w < before.len() && as_ints(before)[w] == children_in(
                            g,
                            before[j] as int,
                        )[c];
                    assert(as_ints(sorted@)[w] == as_ints(before)[w]);
                } else {
                    assert(as_ints(sorted@)[base + c] == listed[c]);
                }
            }
            assert forall|x: int|
                0 <= x < n && (#[trigger] parent_in(g, x)).is_none() implies exists|k: int|
                0 <= k < roots && sorted@[k] == x by {
                let w = choose|w: int| 0 <= w < roots && before[w] == x;
                assert(sorted@[w] == x);
            }
            assert forall|i: int, j: int| 0 <= i < j < roots implies sorted@[i] < sorted@[j] by {
                assert(before[i] < before[j]);
            }
        }
        head += 1;
    }
    proof {
        let order = as_ints(sorted@);
        lemma_ranked_forest(g);
        assert forall|i: int| 0 <= i < n implies order.contains(i) by {
            assert forall|x: int|
                0 <= x < n && (#[trigger] parent_in(g, x)).is_none() implies order.contains(x) by {
                let w = choose|w: int| 0 <= w < roots && sorted@[w] == x;
                assert(order[w] == x);
            }
            assert forall|j: int, c: int|
                0 <= j < order.len() && 0 <= order[j] < n && 0 <= c < children_in(
                    g,
                    order[j],
                ).len() implies order.contains(#[trigger] children_in(g, order[j])[c]) by {
                assert(order[j] == sorted@[j] as int);
            }
            lemma_all_reached(g, order, i);
        }
        lemma_distinct_indices(order, n);
        assert forall|b: int|
            0 <= b < n && parent_in(g, #[trigger] order[b]).is_some() implies exists|a: int|
            0 <= a < b && order[a] == parent_in(g, order[b]).unwrap() by {
            if b < roots {
                assert(parent_in(g, sorted@[b] as int).is_none());
            }
            assert(order[from[b]] == sorted@[from[b]] as int);
        }
        assert forall|a: int, b: int| 0 <= a < b < n implies may_precede(
            g,
            #[trigger] order[a],
            #[trigger] order[b],
        ) by {
            if parent_in(g, order[b]).is_none() {
                if b >= roots {
                    assert(parent_in(g, sorted@[b] as int) == Some(sorted@[from[b]] as int));
                }
                assert(b < roots);
                assert(sorted@[a] < sorted@[b]);
            }
            if parent_in(g, order[a]).is_some() && parent_in(g, order[a]) == parent_in(
                g,
                order[b],
            ) {
                if a < roots {
                    assert(parent_in(g, sorted@[a] as int).is_none());
                }
                assert(a >= roots && b >= roots);
                assert(parent_in(g, sorted@[a] as int) == Some(sorted@[from[a]] as int));
                assert(parent_in(g, sorted@[b] as int) == Some(sorted@[from[b]] as int));
                assert(order[from[a]] == order[from[b]]);
                assert(from[a] == from[b]);
            }
        }
        assert forall|a: int, b: int|
            0 <= a < b < n && parent_in(g, #[trigger] order[a]).is_some() && parent_in(
                g,
                #[trigger] order[b],
            ).is_some() implies order.index_of(parent_in(g, order[a]).unwrap()) <= order.index_of(
            parent_in(g, order[b]).unwrap(),
        ) by {
            if a < roots {
                assert(parent_in(g, sorted@[a] as int).is_none());
            }
            if b < roots {
                assert(parent_in(g, sorted@[b] as int).is_none());
            }
            assert(parent_in(g, sorted@[a] as int) == Some(sorted@[from[a]] as int));
            assert(parent_in(g, sorted@[b] as int) == Some(sorted@[from[b]] as int));
            lemma_index_of_entry(order, from[a]);
            lemma_index_of_entry(order, from[b]);
        }
    }
    sorted
}

} // verus!
