//! The node tree: nodes in creation order, parent-to-child edges with
//! sibling ranks, the classes with their rule records, and the set of nodes
//! whose resolved style is out of date.

use vstd::prelude::*;
use std::collections::HashMap;
use crate::algo::{as_ints, level_order, lemma_level_order_unique, stable_toposort};
use crate::error::UIError;
use crate::graph::{
    children_in, graph_add_edge, graph_add_node, graph_children, graph_incoming, graph_new,
    graph_outgoing, graph_predecessors, graph_sinks, graph_sources, graph_successors,
    lemma_edge_total_add, lemma_edge_total_push_empty, lemma_ranked_forest, parent_in, rank_in,
    ranked_forest, RankGraph,
};
use crate::node::{UINode, UINodeId, UINodeKind};
use crate::style::{
    lemma_position_of, lemma_position_of_entry, lemma_position_of_prefix, position_of, rules_with,
    sources_with, StyleClass, UIStyle, UIStyleId, UIStyleRules,
};

verus! {

broadcast use vstd::std_specs::hash::group_hash_axioms;

/// The texts of a list of names.
pub open spec fn texts(names: Seq<String>) -> Seq<Seq<char>> {
    names.map_values(|name: String| name@)
}

/// The rule records of the class `name`, in order; none if no class has
/// that name.
pub open spec fn class_records(
    names: Seq<Seq<char>>,
    classes: Seq<StyleClass>,
    name: Seq<char>,
) -> Seq<UIStyleRules> {
    let k = position_of(names, name);
    if 0 <= k < names.len() {
        classes[k].rules@
    } else {
        Seq::empty()
    }
}

/// The rule records of the classes `wanted`, class by class in the order of
/// `wanted`.
pub open spec fn records_for(
    names: Seq<Seq<char>>,
    classes: Seq<StyleClass>,
    wanted: Seq<Seq<char>>,
) -> Seq<UIStyleRules>
    decreases wanted.len(),
{
    if wanted.len() == 0 {
        Seq::empty()
    } else {
        records_for(names, classes, wanted.drop_last()) + class_records(
            names,
            classes,
            wanted.last(),
        )
    }
}

/// The records of classes that all exist stay the same when classes are
/// added behind them and the records of the existing ones are kept.
pub proof fn lemma_records_for_kept(
    names: Seq<Seq<char>>,
    classes: Seq<StyleClass>,
    names_after: Seq<Seq<char>>,
    classes_after: Seq<StyleClass>,
    wanted: Seq<Seq<char>>,
)
    requires
        names.len() <= names_after.len(),
        forall|k: int| 0 <= k < names.len() ==> names[k] == names_after[k],
        forall|k: int|
            0 <= k < names.len() ==> (#[trigger] classes_after[k]).rules@ == classes[k].rules@,
        forall|c: int| 0 <= c < wanted.len() ==> position_of(names, #[trigger] wanted[c]) < names.len(),
    ensures
        records_for(names_after, classes_after, wanted) == records_for(names, classes, wanted),
    decreases wanted.len(),
{
    if wanted.len() > 0 {
        let front = wanted.drop_last();
        assert forall|c: int| 0 <= c < front.len() implies position_of(names, #[trigger] front[c])
            < names.len() by {
            assert(front[c] == wanted[c]);
        }
        lemma_records_for_kept(names, classes, names_after, classes_after, front);
        assert(wanted.last() == wanted[wanted.len() - 1]);
        lemma_position_of(names, wanted.last());
        lemma_position_of_prefix(names, names_after, wanted.last());
    }
}

/// How a class registry stands after the node `id` has been entered under
/// the classes `wanted`: the classes of before keep their places, names and
/// records; classes named for the first time follow them, without records;
/// the node is listed by exactly the classes of `wanted`, after the nodes
/// that each class listed before.
pub open spec fn entered(
    names_before: Seq<Seq<char>>,
    classes_before: Seq<StyleClass>,
    names: Seq<Seq<char>>,
    classes: Seq<StyleClass>,
    wanted: Seq<Seq<char>>,
    id: UINodeId,
) -> bool {
    &&& names.len() == classes.len()
    &&& names_before.len() <= names.len()
    &&& names.no_duplicates()
    &&& forall|k: int| 0 <= k < classes.len() ==> (#[trigger] classes[k]).wf()
    &&& forall|k: int| 0 <= k < names_before.len() ==> #[trigger] names[k] == names_before[k]
    &&& forall|k: int|
        0 <= k < names_before.len() ==> {
            &&& (#[trigger] classes[k]).rules@ == classes_before[k].rules@
            &&& classes[k].source_ids() == classes_before[k].source_ids()
            &&& classes_before[k].node_ids@.len() <= classes[k].node_ids@.len()
            &&& forall|m: int|
                0 <= m < classes_before[k].node_ids@.len() ==> #[trigger] classes[k].node_ids@[m]
                    == classes_before[k].node_ids@[m]
            &&& forall|m: int|
                classes_before[k].node_ids@.len() <= m < classes[k].node_ids@.len()
                    ==> #[trigger] classes[k].node_ids@[m] == id
            &&& classes_before[k].node_ids@.len() < classes[k].node_ids@.len() ==> wanted.contains(
                names[k],
            )
        }
    &&& forall|k: int|
        names_before.len() <= k < names.len() ==> {
            &&& (#[trigger] classes[k]).rules@.len() == 0
            &&& wanted.contains(names[k])
            &&& forall|m: int|
                0 <= m < classes[k].node_ids@.len() ==> #[trigger] classes[k].node_ids@[m] == id
        }
    &&& forall|c: int|
        0 <= c < wanted.len() ==> {
            let k = position_of(names, #[trigger] wanted[c]);
            &&& 0 <= k < names.len()
            &&& classes[k].node_ids@.len() > 0
            &&& classes[k].node_ids@.last() == id
        }
}

/// The position of the class `name` among `names`, or their number if no
/// class has that name.
fn find_class(names: &Vec<String>, name: &String) -> (r: usize)
    ensures
        r == position_of(texts(names@), name@),
        r <= names@.len(),
{
    let ghost all = texts(names@);
    proof {
        lemma_position_of(all, name@);
    }
    let mut i: usize = 0;
    while i < names.len()
        invariant
            i <= names@.len(),
            all == texts(names@),
            forall|k: int| 0 <= k < i ==> all[k] != name@,
        decreases names@.len() - i,
    {
        assert(all[i as int] == names@[i as int]@);
        if names[i] == *name {
            proof {
                lemma_position_of(all, name@);
                let at = position_of(all, name@);
                if at < i {
                    assert(all[at] != name@);
                }
            }
            return i;
        }
        i += 1;
    }
    proof {
        lemma_position_of(all, name@);
        let at = position_of(all, name@);
        if at < all.len() {
            assert(all[at] == name@);
        }
    }
    i
}

/// Entering a node under one more class after entering it under some:
/// together, the node is entered under all of them.
proof fn lemma_entered_then(
    names0: Seq<Seq<char>>,
    classes0: Seq<StyleClass>,
    names1: Seq<Seq<char>>,
    classes1: Seq<StyleClass>,
    names2: Seq<Seq<char>>,
    classes2: Seq<StyleClass>,
    wanted: Seq<Seq<char>>,
    name: Seq<char>,
    id: UINodeId,
)
    requires
        names0.len() == classes0.len(),
        entered(names0, classes0, names1, classes1, wanted, id),
        entered(names1, classes1, names2, classes2, seq![name], id),
    ensures
        entered(names0, classes0, names2, classes2, wanted.push(name), id),
{
    let all = wanted.push(name);
    let one = seq![name];
    assert forall|x: Seq<char>| wanted.contains(x) implies all.contains(x) by {
        let w = choose|w: int| 0 <= w < wanted.len() && wanted[w] == x;
        assert(all[w] == x);
    }
    assert forall|x: Seq<char>| one.contains(x) implies all.contains(x) by {
        let w = choose|w: int| 0 <= w < one.len() && one[w] == x;
        assert(all[wanted.len() as int] == x);
    }
    assert forall|k: int| 0 <= k < names0.len() implies #[trigger] names2[k] == names0[k] by {
        assert(names1[k] == names0[k]);
        assert(names2[k] == names1[k]);
    }
    assert forall|k: int| 0 <= k < names0.len() implies ({
        &&& (#[trigger] classes2[k]).rules@ == classes0[k].rules@
        &&& classes2[k].source_ids() == classes0[k].source_ids()
        &&& classes0[k].node_ids@.len() <= classes2[k].node_ids@.len()
        &&& forall|m: int|
            0 <= m < classes0[k].node_ids@.len() ==> #[trigger] classes2[k].node_ids@[m]
                == classes0[k].node_ids@[m]
        &&& forall|m: int|
            classes0[k].node_ids@.len() <= m < classes2[k].node_ids@.len()
                ==> #[trigger] classes2[k].node_ids@[m] == id
        &&& classes0[k].node_ids@.len() < classes2[k].node_ids@.len() ==> all.contains(names2[k])
    }) by {
        let c0 = classes0[k];
        let c1 = classes1[k];
        let c2 = classes2[k];
        assert(c1.rules@ == c0.rules@);
        assert(c2.rules@ == c1.rules@);
        assert(names1[k] == names0[k]);
        assert(names2[k] == names1[k]);
        assert forall|m: int| 0 <= m < c0.node_ids@.len() implies #[trigger] c2.node_ids@[m]
            == c0.node_ids@[m] by {
            assert(c1.node_ids@[m] == c0.node_ids@[m]);
            assert(c2.node_ids@[m] == c1.node_ids@[m]);
        }
        assert forall|m: int|
            c0.node_ids@.len() <= m < c2.node_ids@.len() implies #[trigger] c2.node_ids@[m]
            == id by {
            if m < c1.node_ids@.len() {
                assert(c1.node_ids@[m] == id);
                assert(c2.node_ids@[m] == c1.node_ids@[m]);
            }
        }
        if c0.node_ids@.len() < c2.node_ids@.len() {
            if c0.node_ids@.len() < c1.node_ids@.len() {
                assert(wanted.contains(names1[k]));
            } else {
                assert(one.contains(names2[k]));
            }
        }
    }
    assert forall|k: int| names0.len() <= k < names2.len() implies ({
        &&& (#[trigger] classes2[k]).rules@.len() == 0
        &&& all.contains(names2[k])
        &&& forall|m: int|
            0 <= m < classes2[k].node_ids@.len() ==> #[trigger] classes2[k].node_ids@[m] == id
    }) by {
        if k < names1.len() {
            let c1 = classes1[k];
            let c2 = classes2[k];
            assert(c1.rules@.len() == 0);
            assert(c2.rules@ == c1.rules@);
            assert(names2[k] == names1[k]);
            assert(wanted.contains(names1[k]));
            assert forall|m: int| 0 <= m < c2.node_ids@.len() implies #[trigger] c2.node_ids@[m]
                == id by {
                if m < c1.node_ids@.len() {
                    assert(c1.node_ids@[m] == id);
                    assert(c2.node_ids@[m] == c1.node_ids@[m]);
                }
            }
        } else {
            assert(one.contains(names2[k]));
        }
    }
    assert forall|c: int| 0 <= c < all.len() implies ({
        let k = position_of(names2, #[trigger] all[c]);
        &&& 0 <= k < names2.len()
        &&& classes2[k].node_ids@.len() > 0
        &&& classes2[k].node_ids@.last() == id
    }) by {
        if c < wanted.len() {
            assert(all[c] == wanted[c]);
            let k = position_of(names1, wanted[c]);
            assert(0 <= k < names1.len());
            lemma_position_of_prefix(names1, names2, wanted[c]);
            let c1 = classes1[k];
            let c2 = classes2[k];
            assert(c1.node_ids@.last() == id);
            let last = c2.node_ids@.len() - 1;
            if last < c1.node_ids@.len() {
                assert(c2.node_ids@[last] == c1.node_ids@[last]);
            } else {
                assert(c2.node_ids@[last] == id);
            }
        } else {
            assert(all[c] == one[0]);
        }
    }
}

/// Enters the node `id` under the class `name`, making the class if it
/// does not exist yet.
fn enter_one(
    class_names: &mut Vec<String>,
    classes: &mut Vec<StyleClass>,
    name: &String,
    id: UINodeId,
)
    requires
        old(class_names)@.len() == old(classes)@.len(),
        texts(old(class_names)@).no_duplicates(),
        forall|k: int| 0 <= k < old(classes)@.len() ==> (#[trigger] old(classes)@[k]).wf(),
    ensures
        entered(
            texts(old(class_names)@),
            old(classes)@,
            texts(final(class_names)@),
            final(classes)@,
            seq![name@],
            id,
        ),
{
    let ghost names = texts(class_names@);
    let ghost held = classes@;
    let ghost one = seq![name@];
    let at = find_class(class_names, name);
    proof {
        lemma_position_of(names, name@);
        assert(one[0] == name@);
    }
    if at == class_names.len() {
        class_names.push(name.clone());
        let mut class = StyleClass::new();
        class.add_node(id);
        classes.push(class);
        proof {
            let names_after = texts(class_names@);
            assert(names_after =~= names.push(name@));
            assert forall|a: int, b: int|
                0 <= a < names_after.len() && 0 <= b < names_after.len() && a
                    != b implies names_after[a] != names_after[b] by {
                if a < names.len() && b < names.len() {
                    assert(names[a] != names[b]);
                }
            }
            assert forall|k: int| 0 <= k < classes@.len() implies (#[trigger] classes@[k]).wf() by {
                if k < held.len() {
                    assert(classes@[k] == held[k]);
                }
            }
            assert forall|k: int| 0 <= k < names.len() implies #[trigger] classes@[k]
                == held[k] by {}
            assert forall|k: int| names.len() <= k < names_after.len() implies ({
                &&& (#[trigger] classes@[k]).rules@.len() == 0
                &&& one.contains(names_after[k])
                &&& forall|m: int|
                    0 <= m < classes@[k].node_ids@.len() ==> #[trigger] classes@[k].node_ids@[m]
                        == id
            }) by {
                assert(one[0] == names_after[k]);
            }
            assert forall|c: int| 0 <= c < one.len() implies ({
                let k = position_of(names_after, #[trigger] one[c]);
                &&& 0 <= k < names_after.len()
                &&& classes@[k].node_ids@.len() > 0
                &&& classes@[k].node_ids@.last() == id
            }) by {
                lemma_position_of_entry(names_after, names.len() as int);
            }
        }
    } else {
        let ghost listed = classes@[at as int].node_ids@;
        let mut class = StyleClass::new();
        std::mem::swap(&mut class, &mut classes[at]);
        class.add_node(id);
        std::mem::swap(&mut class, &mut classes[at]);
        proof {
            assert(texts(class_names@) == names);
            assert(classes@ =~= held.update(at as int, classes@[at as int]));
            assert(classes@[at as int].node_ids@ == listed.push(id));
            assert(held[at as int].wf());
            assert forall|k: int| 0 <= k < classes@.len() implies (#[trigger] classes@[k]).wf() by {
                if k != at {
                    assert(classes@[k] == held[k]);
                }
            }
            assert forall|k: int| 0 <= k < names.len() implies ({
                &&& (#[trigger] classes@[k]).rules@ == held[k].rules@
                &&& classes@[k].source_ids() == held[k].source_ids()
                &&& held[k].node_ids@.len() <= classes@[k].node_ids@.len()
                &&& forall|m: int|
                    0 <= m < held[k].node_ids@.len() ==> #[trigger] classes@[k].node_ids@[m]
                        == held[k].node_ids@[m]
                &&& forall|m: int|
                    held[k].node_ids@.len() <= m < classes@[k].node_ids@.len()
                        ==> #[trigger] classes@[k].node_ids@[m] == id
                &&& held[k].node_ids@.len() < classes@[k].node_ids@.len() ==> one.contains(
                    names[k],
                )
            }) by {
                if k != at {
                    assert(classes@[k] == held[k]);
                } else {
                    assert(one[0] == names[k]);
                }
            }
            assert forall|c: int| 0 <= c < one.len() implies ({
                let k = position_of(names, #[trigger] one[c]);
                &&& 0 <= k < names.len()
                &&& classes@[k].node_ids@.len() > 0
                &&& classes@[k].node_ids@.last() == id
            }) by {}
        }
    }
}

/// Nothing is entered by entering a node under no class.
proof fn lemma_entered_nothing(names: Seq<Seq<char>>, classes: Seq<StyleClass>, id: UINodeId)
    requires
        names.len() == classes.len(),
        names.no_duplicates(),
        forall|k: int| 0 <= k < classes.len() ==> (#[trigger] classes[k]).wf(),
    ensures
        entered(names, classes, names, classes, Seq::<Seq<char>>::empty(), id),
{
}

/// Enters the node `id` under each class of `wanted`, making the classes
/// that do not exist yet.
fn enter_node(
    class_names: &mut Vec<String>,
    classes: &mut Vec<StyleClass>,
    wanted: &Vec<String>,
    id: UINodeId,
)
    requires
        old(class_names)@.len() == old(classes)@.len(),
        texts(old(class_names)@).no_duplicates(),
        forall|k: int| 0 <= k < old(classes)@.len() ==> (#[trigger] old(classes)@[k]).wf(),
    ensures
        entered(
            texts(old(class_names)@),
            old(classes)@,
            texts(final(class_names)@),
            final(classes)@,
            texts(wanted@),
            id,
        ),
{
    let ghost names_before = texts(class_names@);
    let ghost classes_before = classes@;
    let mut c: usize = 0;
    proof {
        assert(texts(wanted@).take(0) =~= Seq::<Seq<char>>::empty());
        lemma_entered_nothing(names_before, classes_before, id);
    }
    while c < wanted.len()
        invariant
            c <= wanted@.len(),
            names_before == texts(old(class_names)@),
            classes_before == old(classes)@,
            names_before.len() == classes_before.len(),
            entered(
                names_before,
                classes_before,
                texts(class_names@),
                classes@,
                texts(wanted@).take(c as int),
                id,
            ),
        decreases wanted@.len() - c,
    {
        let ghost names = texts(class_names@);
        let ghost held = classes@;
        enter_one(class_names, classes, &wanted[c], id);
        proof {
            let name = wanted@[c as int]@;
            assert(texts(wanted@).take(c + 1) =~= texts(wanted@).take(c as int).push(name));
            lemma_entered_then(
                names_before,
                classes_before,
                names,
                held,
                texts(class_names@),
                classes@,
                texts(wanted@).take(c as int),
                name,
                id,
            );
        }
        c += 1;
    }
    assert(texts(wanted@).take(c as int) =~= texts(wanted@));
}

/// The records of classes that are not the `k`-th stay the same when only
/// the `k`-th class changes.
pub proof fn lemma_records_for_other(
    names: Seq<Seq<char>>,
    classes: Seq<StyleClass>,
    classes_after: Seq<StyleClass>,
    wanted: Seq<Seq<char>>,
    k: int,
)
    requires
        names.len() == classes.len(),
        classes_after.len() == classes.len(),
        0 <= k < names.len(),
        forall|j: int|
            0 <= j < names.len() && j != k ==> (#[trigger] classes_after[j]).rules@
                == classes[j].rules@,
        forall|c: int| 0 <= c < wanted.len() ==> position_of(names, #[trigger] wanted[c]) != k,
    ensures
        records_for(names, classes_after, wanted) == records_for(names, classes, wanted),
    decreases wanted.len(),
{
    if wanted.len() > 0 {
        let front = wanted.drop_last();
        assert forall|c: int| 0 <= c < front.len() implies position_of(names, #[trigger] front[c])
            != k by {
            assert(front[c] == wanted[c]);
        }
        lemma_records_for_other(names, classes, classes_after, front, k);
        assert(wanted.last() == wanted[wanted.len() - 1]);
        lemma_position_of(names, wanted.last());
    }
}

/// The rule records of the classes `wanted`, class by class.
fn collect_records(names: &Vec<String>, classes: &Vec<StyleClass>, wanted: &Vec<String>) -> (r:
    Vec<UIStyleRules>)
    requires
        names@.len() == classes@.len(),
    ensures
        r@ == records_for(texts(names@), classes@, texts(wanted@)),
{
    let mut records: Vec<UIStyleRules> = Vec::new();
    let mut c: usize = 0;
    assert(texts(wanted@).take(0) =~= Seq::<Seq<char>>::empty());
    while c < wanted.len()
        invariant
            names@.len() == classes@.len(),
            c <= wanted@.len(),
            records@ == records_for(texts(names@), classes@, texts(wanted@).take(c as int)),
        decreases wanted@.len() - c,
    {
        let ghost front = texts(wanted@).take(c as int);
        let ghost next = texts(wanted@).take(c + 1);
        assert(next.drop_last() =~= front);
        assert(next.last() == wanted@[c as int]@);
        let at = find_class(names, &wanted[c]);
        proof {
            lemma_position_of(texts(names@), wanted@[c as int]@);
        }
        if at < names.len() {
            let given = classes[at].styles();
            let ghost start = records@;
            let mut m: usize = 0;
            while m < given.len()
                invariant
                    m <= given@.len(),
                    records@ == start + given@.take(m as int),
                decreases given@.len() - m,
            {
                assert(given@.take(m + 1) =~= given@.take(m as int).push(given@[m as int]));
                records.push(given[m]);
                m += 1;
                assert(records@ =~= start + given@.take(m as int));
            }
            assert(given@.take(m as int) =~= given@);
        } else {
            assert(records@ + Seq::<UIStyleRules>::empty() =~= records@);
        }
        c += 1;
    }
    assert(texts(wanted@).take(c as int) =~= texts(wanted@));
    records
}

/// Marks the `i`-th node out of date; a node that is marked already stays
/// as it is.
fn mark_deprecated(list: &mut Vec<usize>, flags: &mut Vec<bool>, i: usize)
    requires
        i < old(flags)@.len(),
    ensures
        final(flags)@ == old(flags)@.update(i as int, true),
        old(flags)@[i as int] ==> final(list)@ == old(list)@,
        !old(flags)@[i as int] ==> final(list)@ == old(list)@.push(i),
{
    if !flags[i] {
        flags[i] = true;
        list.push(i);
    } else {
        assert(flags@ =~= old(flags)@.update(i as int, true));
    }
}

/// The tree of nodes with its classes.
pub struct UITree {
    nodes_tree: RankGraph,
    nodes: Vec<UINode>,
    id_to_tree_idx: HashMap<u64, usize>,
    class_names: Vec<String>,
    classes: Vec<StyleClass>,
    nodes_with_deprecated_styles: Vec<usize>,
    deprecated: Vec<bool>,
}

impl Default for UITree {
    fn default() -> (r: UITree)
        ensures
            r.wf(),
            r.len() == 0,
            forall|id: UINodeId| !r.contains(id),
    {
        UITree::new()
    }
}

impl UITree {
    /// The number of nodes.
    pub closed spec fn len(&self) -> nat {
        self.nodes@.len()
    }

    /// The node made as the `i`-th.
    pub closed spec fn node_at(&self, i: int) -> UINode {
        self.nodes@[i]
    }

    /// The index of the parent of the `i`-th node, if it has one.
    pub closed spec fn parent_index(&self, i: int) -> Option<int> {
        parent_in(self.nodes_tree, i)
    }

    /// The indices of the children of the `i`-th node, in rank order.
    pub closed spec fn child_indices(&self, i: int) -> Seq<int> {
        children_in(self.nodes_tree, i)
    }

    /// The rank of the `i`-th node among its siblings.
    pub closed spec fn rank_of(&self, i: int) -> int {
        rank_in(self.nodes_tree, i)
    }

    /// The graph holds one node per node of the tree, and its edges form a
    /// forest in which every child was made after its parent and the ranks
    /// of siblings count up from zero in the order of their making.
    pub closed spec fn graph_wf(&self) -> bool {
        &&& graph_successors(self.nodes_tree).len() == self.nodes@.len()
        &&& ranked_forest(self.nodes_tree)
    }

    /// The lookup table maps exactly the identities of the nodes, each to
    /// its node's index.
    pub closed spec fn ids_wf(&self) -> bool {
        &&& forall|i: int|
            0 <= i < self.nodes@.len() ==> {
                let id = (#[trigger] self.nodes@[i]).id.0;
                &&& self.id_to_tree_idx@.contains_key(id)
                &&& self.id_to_tree_idx@[id] == i
            }
        &&& forall|k: u64| #[trigger]
            self.id_to_tree_idx@.contains_key(k) ==> {
                &&& self.id_to_tree_idx@[k] < self.nodes@.len()
                &&& self.nodes@[self.id_to_tree_idx@[k] as int].id.0 == k
            }
    }

    /// Whether a node with identity `id` is in the tree.
    pub closed spec fn contains(&self, id: UINodeId) -> bool {
        self.id_to_tree_idx@.contains_key(id.0)
    }

    /// The index of the node with identity `id`.
    pub closed spec fn index_of(&self, id: UINodeId) -> int {
        self.id_to_tree_idx@[id.0] as int
    }

    /// The identities of the nodes, in the order of their making.
    pub open spec fn id_seq(&self) -> Seq<UINodeId> {
        Seq::new(self.len(), |i: int| self.node_at(i).id)
    }

    /// The parent of the node `id`, if it has one.
    pub open spec fn parent_of(&self, id: UINodeId) -> Option<UINodeId> {
        match self.parent_index(self.index_of(id)) {
            Some(p) => Some(self.node_at(p).id),
            None => None,
        }
    }

    /// The children of the node `id`, in rank order.
    pub open spec fn children_of(&self, id: UINodeId) -> Seq<UINodeId> {
        self.child_indices(self.index_of(id)).map_values(|c: int| self.node_at(c).id)
    }

    /// The names of the classes, in the order in which they were first
    /// named.
    pub closed spec fn class_names(&self) -> Seq<Seq<char>> {
        self.class_names@.map_values(|name: String| name@)
    }

    /// The classes, in the order in which they were first named.
    pub closed spec fn class_list(&self) -> Seq<StyleClass> {
        self.classes@
    }

    /// Whether the resolved style of the `i`-th node is out of date.
    pub closed spec fn is_deprecated(&self, i: int) -> bool {
        self.deprecated@[i]
    }

    /// The nodes whose resolved style is out of date.
    pub open spec fn stale(&self) -> Set<UINodeId> {
        Set::new(|id: UINodeId| self.contains(id) && self.is_deprecated(self.index_of(id)))
    }

    /// What the style of the `i`-th node resolves to: the merge of the
    /// records of its classes.
    pub open spec fn resolved_style(&self, i: int) -> UIStyleRules {
        UIStyleRules::merged(
            records_for(self.class_names(), self.class_list(), self.node_at(i).class_names()),
        )
    }

    /// Class names are distinct, every class is well formed, a class lists
    /// only nodes that name it, and every class a node names exists and
    /// lists the node.
    pub closed spec fn classes_wf(&self) -> bool {
        &&& self.class_names@.len() == self.classes@.len()
        &&& self.class_names().no_duplicates()
        &&& forall|k: int| 0 <= k < self.classes@.len() ==> (#[trigger] self.classes@[k]).wf()
        &&& forall|k: int, m: int|
            0 <= k < self.classes@.len() && 0 <= m < self.classes@[k].node_ids@.len() ==> {
                let id = #[trigger] self.classes@[k].node_ids@[m];
                &&& self.id_to_tree_idx@.contains_key(id.0)
                &&& self.nodes@[self.id_to_tree_idx@[id.0] as int].class_names().contains(
                    self.class_names()[k],
                )
            }
        &&& forall|i: int, c: int|
            0 <= i < self.nodes@.len() && 0 <= c < self.nodes@[i].classes@.len() ==> {
                let k = position_of(
                    self.class_names(),
                    #[trigger] self.nodes@[i].class_names()[c],
                );
                &&& k < self.classes@.len()
                &&& self.classes@[k].node_ids@.contains(self.nodes@[i].id)
            }
    }

    /// The list of out-of-date nodes holds exactly the flagged nodes.
    pub closed spec fn stale_wf(&self) -> bool {
        &&& self.deprecated@.len() == self.nodes@.len()
        &&& forall|m: int|
            0 <= m < self.nodes_with_deprecated_styles@.len() ==> {
                let i = #[trigger] self.nodes_with_deprecated_styles@[m];
                i < self.nodes@.len() && self.deprecated@[i as int]
            }
        &&& forall|i: int|
            0 <= i < self.nodes@.len() && #[trigger] self.deprecated@[i]
                ==> self.nodes_with_deprecated_styles@.contains(i as usize)
    }

    /// Every node that is not out of date has the style that its classes
    /// resolve to.
    pub closed spec fn styles_wf(&self) -> bool {
        forall|i: int|
            0 <= i < self.nodes@.len() && !self.deprecated@[i] ==> (#[trigger] self.nodes@[i]).style
                == self.resolved_style(i)
    }

    /// The tree's invariant.
    pub closed spec fn wf(&self) -> bool {
        &&& self.graph_wf()
        &&& self.ids_wf()
        &&& self.classes_wf()
        &&& self.stale_wf()
        &&& self.styles_wf()
    }

    /// What the invariant says of the tree's shape: identities are
    /// distinct; a parent was made before its child and lists it among its
    /// children; children are listed in the order of their making and each
    /// has the node as its parent.
    pub proof fn lemma_shape(&self)
        requires
            self.wf(),
        ensures
            self.len() <= u32::MAX,
            forall|id: UINodeId| #[trigger]
                self.contains(id) ==> 0 <= self.index_of(id) < self.len() && self.node_at(
                    self.index_of(id),
                ).id == id,
            forall|i: int|
                0 <= i < self.len() ==> self.contains((#[trigger] self.node_at(i)).id)
                    && self.index_of(self.node_at(i).id) == i,
            forall|i: int|
                0 <= i < self.len() && (#[trigger] self.parent_index(i)).is_some() ==> 0
                    <= self.parent_index(i).unwrap() < i && self.child_indices(
                    self.parent_index(i).unwrap(),
                ).contains(i),
            forall|a: int, k: int|
                0 <= a < self.len() && 0 <= k < self.child_indices(a).len() ==> a < (
                #[trigger] self.child_indices(a)[k]) < self.len() && self.parent_index(
                    self.child_indices(a)[k],
                ) == Some(a),
            forall|a: int, j: int, k: int|
                0 <= a < self.len() && 0 <= j < k < self.child_indices(a).len()
                    ==> #[trigger] self.child_indices(a)[j] < #[trigger] self.child_indices(a)[k],
            forall|a: int, k: int|
                0 <= a < self.len() && 0 <= k < self.child_indices(a).len() ==> self.rank_of(
                    #[trigger] self.child_indices(a)[k],
                ) == k,
            forall|i: int|
                0 <= i < self.len() && (#[trigger] self.parent_index(i)).is_some() ==> 0
                    <= self.rank_of(i) < self.child_indices(self.parent_index(i).unwrap()).len()
                    && self.child_indices(self.parent_index(i).unwrap())[self.rank_of(i)] == i,
    {
        let succ = graph_successors(self.nodes_tree);
        let pred = graph_predecessors(self.nodes_tree);
        lemma_ranked_forest(self.nodes_tree);
        assert forall|id: UINodeId| #[trigger] self.contains(id) implies 0 <= self.index_of(id)
            < self.len() && self.node_at(self.index_of(id)).id == id by {
            assert(self.id_to_tree_idx@.contains_key(id.0));
        }
        assert forall|i: int| 0 <= i < self.len() implies self.contains(
            (#[trigger] self.node_at(i)).id,
        ) && self.index_of(self.node_at(i).id) == i by {
            let id = self.nodes@[i].id.0;
        }
        assert forall|i: int|
            0 <= i < self.len() && (#[trigger] self.parent_index(i)).is_some() implies 0
            <= self.parent_index(i).unwrap() < i && self.child_indices(
            self.parent_index(i).unwrap(),
        ).contains(i) by {
            let p = pred[i];
            assert(p.len() == 1);
            let a = p[0].0;
            assert(succ[a][p[0].1] == (i, p[0].1));
            assert(self.child_indices(a)[p[0].1] == i);
        }
        assert forall|a: int, k: int|
            0 <= a < self.len() && 0 <= k < self.child_indices(a).len() implies a < (
        #[trigger] self.child_indices(a)[k]) < self.len() && self.parent_index(
            self.child_indices(a)[k],
        ) == Some(a) by {
            let e = succ[a][k];
            assert(pred[e.0] == seq![(a, k)]);
        }
        assert forall|a: int, j: int, k: int|
            0 <= a < self.len() && 0 <= j < k < self.child_indices(
                a,
            ).len() implies #[trigger] self.child_indices(a)[j] < #[trigger] self.child_indices(
            a,
        )[k] by {
            assert(succ[a][j].0 < succ[a][k].0);
        }
    }

    /// A tree without nodes and without classes.
    pub fn new() -> (r: UITree)
        ensures
            r.wf(),
            r.len() == 0,
            forall|id: UINodeId| !r.contains(id),
            r.class_names() == Seq::<Seq<char>>::empty(),
            r.class_list() == Seq::<StyleClass>::empty(),
    {
        let r = UITree {
            nodes_tree: graph_new(),
            nodes: Vec::new(),
            id_to_tree_idx: HashMap::new(),
            class_names: Vec::new(),
            classes: Vec::new(),
            nodes_with_deprecated_styles: Vec::new(),
            deprecated: Vec::new(),
        };
        assert(r.class_names() =~= Seq::<Seq<char>>::empty());
        r
    }

    /// Whether `listed` holds the identities of exactly the nodes whose
    /// index meets `wanted`, in the order of their making.
    pub open spec fn lists_in_order(
        &self,
        listed: Seq<UINodeId>,
        wanted: spec_fn(int) -> bool,
    ) -> bool {
        &&& forall|k: int|
            0 <= k < listed.len() ==> self.contains(#[trigger] listed[k]) && wanted(
                self.index_of(listed[k]),
            )
        &&& forall|j: int, k: int|
            0 <= j < k < listed.len() ==> self.index_of(#[trigger] listed[j]) < self.index_of(
                #[trigger] listed[k],
            )
        &&& forall|i: int|
            0 <= i < self.len() && #[trigger] wanted(i) ==> listed.contains(self.node_at(i).id)
    }

    /// The number of nodes.
    pub fn node_count(&self) -> (n: usize)
        requires
            self.wf(),
        ensures
            n == self.len(),
    {
        self.nodes.len()
    }

    /// The index of the node `id`, if the tree holds it.
    pub fn find(&self, id: &UINodeId) -> (r: Option<usize>)
        requires
            self.wf(),
        ensures
            r.is_some() == self.contains(*id),
            r.is_some() ==> r.unwrap() == self.index_of(*id) && r.unwrap() < self.len(),
    {
        match self.id_to_tree_idx.get(&id.0) {
            Some(i) => Some(*i),
            None => None,
        }
    }

    /// The node `id`, if the tree holds it.
    pub fn get_node(&self, id: &UINodeId) -> (r: Option<&UINode>)
        requires
            self.wf(),
        ensures
            r.is_some() == self.contains(*id),
            r.is_some() ==> *r.unwrap() == self.node_at(self.index_of(*id)),
    {
        match self.find(id) {
            Some(i) => Some(&self.nodes[i]),
            None => None,
        }
    }

    /// The node made as the `i`-th.
    pub fn node_by_index(&self, i: usize) -> (r: &UINode)
        requires
            self.wf(),
            i < self.len(),
        ensures
            *r == self.node_at(i as int),
    {
        &self.nodes[i]
    }

    /// The indices of the children of the `a`-th node, in rank order.
    pub fn children_by_index(&self, a: usize) -> (r: Vec<usize>)
        requires
            self.wf(),
            a < self.len(),
        ensures
            r@.map_values(|c: usize| c as int) == self.child_indices(a as int),
    {
        graph_children(&self.nodes_tree, a)
    }

    /// The index of the parent of the `b`-th node, if it has one.
    pub fn parent_by_index(&self, b: usize) -> (r: Option<usize>)
        requires
            self.wf(),
            b < self.len(),
        ensures
            match r {
                Some(p) => self.parent_index(b as int) == Some(p as int),
                None => self.parent_index(b as int).is_none(),
            },
    {
        let edges = graph_incoming(&self.nodes_tree, b);
        if edges.len() > 0 {
            let ghost pred = graph_predecessors(self.nodes_tree)[b as int];
            assert(pred.len() == 1);
            assert((edges@[0].0 as int, edges@[0].1 as int) == pred[0]);
            Some(edges[0].0)
        } else {
            None
        }
    }

    /// The children of the node `id`, in rank order.
    pub fn get_child_node_ids(&self, id: &UINodeId) -> (r: Result<Vec<UINodeId>, UIError>)
        requires
            self.wf(),
        ensures
            match r {
                Ok(children) => self.contains(*id) && children@ == self.children_of(*id),
                Err(e) => !self.contains(*id) && e == UIError::UnknownNode,
            },
    {
        match self.find(id) {
            Some(a) => {
                let indices = self.children_by_index(a);
                proof {
                    self.lemma_shape();
                }
                let mut children: Vec<UINodeId> = Vec::new();
                let mut k: usize = 0;
                while k < indices.len()
                    invariant
                        self.wf(),
                        k <= indices@.len(),
                        children@.len() == k,
                        a < self.len(),
                        indices@.map_values(|c: usize| c as int) == self.child_indices(a as int),
                        forall|j: int|
                            0 <= j < self.child_indices(a as int).len() ==> 0 <= (
                            #[trigger] self.child_indices(a as int)[j]) < self.len(),
                        forall|j: int|
                            0 <= j < k ==> (#[trigger] children@[j]) == self.node_at(
                                self.child_indices(a as int)[j],
                            ).id,
                    decreases indices@.len() - k,
                {
                    assert(indices@.map_values(|c: usize| c as int)[k as int] == indices@[k as int]);
                    children.push(self.nodes[indices[k]].id);
                    k += 1;
                }
                assert(indices@.map_values(|c: usize| c as int).len() == indices@.len());
                assert(children@ =~= self.children_of(*id));
                Ok(children)
            },
            None => Err(UIError::UnknownNode),
        }
    }

    /// The parent of the node `id`; none for a root.
    pub fn get_parent(&self, id: &UINodeId) -> (r: Result<Option<UINodeId>, UIError>)
        requires
            self.wf(),
        ensures
            match r {
                Ok(parent) => self.contains(*id) && parent == self.parent_of(*id),
                Err(e) => !self.contains(*id) && e == UIError::UnknownNode,
            },
    {
        match self.find(id) {
            Some(b) => {
                proof {
                    self.lemma_shape();
                }
                match self.parent_by_index(b) {
                    Some(p) => Ok(Some(self.nodes[p].id)),
                    None => Ok(None),
                }
            },
            None => Err(UIError::UnknownNode),
        }
    }

    /// Whether the node `id` has no children.
    pub fn is_leaf(&self, id: &UINodeId) -> (r: Result<bool, UIError>)
        requires
            self.wf(),
        ensures
            match r {
                Ok(leaf) => self.contains(*id) && leaf == (self.children_of(*id).len() == 0),
                Err(e) => !self.contains(*id) && e == UIError::UnknownNode,
            },
    {
        match self.find(id) {
            Some(a) => Ok(graph_outgoing(&self.nodes_tree, a).len() == 0),
            None => Err(UIError::UnknownNode),
        }
    }

    /// The identities of all nodes, in the order of their making.
    pub fn ids(&self) -> (r: Vec<UINodeId>)
        requires
            self.wf(),
        ensures
            r@ == self.id_seq(),
    {
        let mut all: Vec<UINodeId> = Vec::new();
        let mut i: usize = 0;
        while i < self.nodes.len()
            invariant
                i <= self.nodes@.len(),
                all@.len() == i,
                forall|j: int| 0 <= j < i ==> (#[trigger] all@[j]) == self.nodes@[j].id,
            decreases self.nodes@.len() - i,
        {
            all.push(self.nodes[i].id);
            i += 1;
        }
        assert(all@ =~= self.id_seq());
        all
    }

    /// The identities of the given nodes, in the given order.
    fn ids_of(&self, indices: &Vec<usize>) -> (r: Vec<UINodeId>)
        requires
            self.wf(),
            forall|k: int| 0 <= k < indices@.len() ==> (#[trigger] indices@[k]) < self.len(),
        ensures
            r@.len() == indices@.len(),
            forall|k: int|
                0 <= k < indices@.len() ==> (#[trigger] r@[k]) == self.node_at(
                    indices@[k] as int,
                ).id,
    {
        let mut listed: Vec<UINodeId> = Vec::new();
        let mut k: usize = 0;
        while k < indices.len()
            invariant
                self.wf(),
                k <= indices@.len(),
                listed@.len() == k,
                forall|j: int| 0 <= j < indices@.len() ==> (#[trigger] indices@[j]) < self.len(),
                forall|j: int|
                    0 <= j < k ==> (#[trigger] listed@[j]) == self.node_at(indices@[j] as int).id,
            decreases indices@.len() - k,
        {
            listed.push(self.nodes[indices[k]].id);
            k += 1;
        }
        listed
    }

    /// The indices of the nodes without a parent, in increasing order.
    pub fn root_indices(&self) -> (r: Vec<usize>)
        requires
            self.wf(),
        ensures
            forall|k: int|
                0 <= k < r@.len() ==> (#[trigger] r@[k]) < self.len() && self.parent_index(
                    r@[k] as int,
                ).is_none(),
            forall|j: int, k: int| 0 <= j < k < r@.len() ==> r@[j] < r@[k],
            forall|i: int|
                0 <= i < self.len() && (#[trigger] self.parent_index(i)).is_none()
                    ==> exists|k: int| 0 <= k < r@.len() && r@[k] == i,
    {
        let r = graph_sources(&self.nodes_tree);
        proof {
            let pred = graph_predecessors(self.nodes_tree);
            assert forall|i: int|
                0 <= i < self.len() && (#[trigger] self.parent_index(
                    i,
                )).is_none() implies exists|k: int| 0 <= k < r@.len() && r@[k] == i by {
                assert(pred[i].len() == 0);
            }
        }
        r
    }

    /// The identities of the nodes without a parent, in the order of their
    /// making.
    pub fn root_ids(&self) -> (r: Vec<UINodeId>)
        requires
            self.wf(),
        ensures
            self.lists_in_order(r@, |i: int| self.parent_index(i).is_none()),
    {
        let indices = self.root_indices();
        let r = self.ids_of(&indices);
        proof {
            self.lemma_shape();
            let wanted = |i: int| self.parent_index(i).is_none();
            assert forall|k: int| 0 <= k < r@.len() implies self.contains(#[trigger] r@[k])
                && wanted(self.index_of(r@[k])) by {
                assert(indices@[k] < self.len());
            }
            assert forall|j: int, k: int| 0 <= j < k < r@.len() implies self.index_of(
                #[trigger] r@[j],
            ) < self.index_of(#[trigger] r@[k]) by {
                assert(indices@[j] < indices@[k]);
            }
            assert forall|i: int| 0 <= i < self.len() && #[trigger] wanted(i) implies r@.contains(
                self.node_at(i).id,
            ) by {
                assert(self.parent_index(i).is_none());
                let k = choose|k: int| 0 <= k < indices@.len() && indices@[k] == i;
                assert(r@[k] == self.node_at(i).id);
            }
        }
        r
    }

    /// The identities of the nodes without children, in the order of their
    /// making.
    pub fn leaf_ids(&self) -> (r: Vec<UINodeId>)
        requires
            self.wf(),
        ensures
            self.lists_in_order(r@, |i: int| self.child_indices(i).len() == 0),
    {
        let indices = graph_sinks(&self.nodes_tree);
        let r = self.ids_of(&indices);
        proof {
            self.lemma_shape();
            let succ = graph_successors(self.nodes_tree);
            let wanted = |i: int| self.child_indices(i).len() == 0;
            assert forall|k: int| 0 <= k < r@.len() implies self.contains(#[trigger] r@[k])
                && wanted(self.index_of(r@[k])) by {
                assert(indices@[k] < self.len());
            }
            assert forall|j: int, k: int| 0 <= j < k < r@.len() implies self.index_of(
                #[trigger] r@[j],
            ) < self.index_of(#[trigger] r@[k]) by {
                assert(indices@[j] < indices@[k]);
            }
            assert forall|i: int| 0 <= i < self.len() && #[trigger] wanted(i) implies r@.contains(
                self.node_at(i).id,
            ) by {
                assert(succ[i].len() == 0);
                let k = choose|k: int| 0 <= k < indices@.len() && indices@[k] == i;
                assert(r@[k] == self.node_at(i).id);
            }
        }
        r
    }

    /// Whether `add_node` accepts a node `id` under `parent_id`: the
    /// identity is new, the parent exists, and the store has room.
    pub open spec fn accepts(&self, id: UINodeId, parent_id: Option<UINodeId>) -> bool {
        &&& !self.contains(id)
        &&& parent_id.is_some() ==> self.contains(parent_id.unwrap())
        &&& self.len() < u32::MAX
    }

    /// How the tree stands after the node `id` has been added to `before`
    /// under `parent_id`: the nodes of before are as they were; the new
    /// node is the last, with the unset style and out of date; it is the
    /// last child of its parent; its classes list it.
    pub open spec fn extends(
        &self,
        before: &UITree,
        id: UINodeId,
        kind: UINodeKind,
        parent_id: Option<UINodeId>,
        classes: Vec<String>,
    ) -> bool {
        let n = before.len() as int;
        &&& self.len() == n + 1
        &&& self.node_at(n) == (UINode { id, kind, classes, style: UIStyleRules::unset() })
        &&& self.contains(id) && self.index_of(id) == n
        &&& forall|x: UINodeId|
            x != id ==> (#[trigger] self.contains(x) == before.contains(x)) && (before.contains(x)
                ==> self.index_of(x) == before.index_of(x))
        &&& forall|i: int|
            #![trigger self.node_at(i)]
            #![trigger self.parent_index(i)]
            #![trigger self.is_deprecated(i)]
            #![trigger self.child_indices(i)]
            0 <= i < n ==> {
                &&& self.node_at(i) == before.node_at(i)
                &&& self.parent_index(i) == before.parent_index(i)
                &&& self.is_deprecated(i) == before.is_deprecated(i)
                &&& self.child_indices(i) == if parent_id.is_some() && i == before.index_of(
                    parent_id.unwrap(),
                ) {
                    before.child_indices(i).push(n)
                } else {
                    before.child_indices(i)
                }
            }
        &&& self.parent_index(n) == match parent_id {
            Some(p) => Some(before.index_of(p)),
            None => None,
        }
        &&& self.child_indices(n) == Seq::<int>::empty()
        &&& self.is_deprecated(n)
        &&& entered(
            before.class_names(),
            before.class_list(),
            self.class_names(),
            self.class_list(),
            texts(classes@),
            id,
        )
    }

    /// Adds a node under `parent_id`, or as a root if there is none, as the
    /// last of its siblings, and marks it out of date. Refuses an identity
    /// that the tree already holds, a parent that it does not hold, and a
    /// node beyond the capacity of the store; a refused call changes
    /// nothing.
    pub fn add_node(
        &mut self,
        id: UINodeId,
        kind: UINodeKind,
        parent_id: Option<UINodeId>,
        classes: Vec<String>,
    ) -> (r: Result<(), UIError>)
        requires
            old(self).wf(),
        ensures
            final(self).wf(),
            r.is_ok() == old(self).accepts(id, parent_id),
            match r {
                Ok(_) => final(self).extends(old(self), id, kind, parent_id, classes),
                Err(e) => {
                    &&& *final(self) == *old(self)
                    &&& e == if old(self).contains(id) {
                        UIError::DuplicateNodeId
                    } else if parent_id.is_some() && !old(self).contains(parent_id.unwrap()) {
                        UIError::UnknownParent
                    } else {
                        UIError::CapacityExceeded
                    }
                },
            },
    {
        if self.id_to_tree_idx.contains_key(&id.0) {
            return Err(UIError::DuplicateNodeId);
        }
        let parent_idx: Option<usize> = match parent_id {
            Some(p) => match self.find(&p) {
                Some(i) => Some(i),
                None => {
                    return Err(UIError::UnknownParent);
                },
            },
            None => None,
        };
        if self.nodes.len() >= 0xffff_ffff {
            return Err(UIError::CapacityExceeded);
        }
        let ghost n = self.nodes@.len() as int;
        let ghost succ = graph_successors(self.nodes_tree);
        let ghost pred = graph_predecessors(self.nodes_tree);
        let ghost wanted = texts(classes@);
        proof {
            old(self).lemma_shape();
        }

        enter_node(&mut self.class_names, &mut self.classes, &classes, id);

        let new_node_idx = graph_add_node(&mut self.nodes_tree);
        self.nodes.push(UINode::new(id, kind, classes, parent_id));
        proof {
            lemma_edge_total_push_empty(succ);
        }
        if let Some(p) = parent_idx {
            let rank = graph_outgoing(&self.nodes_tree, p).len();
            proof {
                lemma_edge_total_add(succ.push(Seq::empty()), p as int, (n, rank as int));
            }
            graph_add_edge(&mut self.nodes_tree, p, new_node_idx, rank);
        }
        self.id_to_tree_idx.insert(id.0, new_node_idx);
        self.nodes_with_deprecated_styles.push(new_node_idx);
        self.deprecated.push(true);

        proof {
            let succ2 = graph_successors(self.nodes_tree);
            let pred2 = graph_predecessors(self.nodes_tree);
            assert(self.graph_wf()) by {
                assert forall|a: int, k: int|
                    0 <= a < succ2.len() && 0 <= k < succ2[a].len() implies ({
                    let e = #[trigger] succ2[a][k];
                    &&& a < e.0 < succ2.len()
                    &&& e.1 == k
                    &&& pred2[e.0] == seq![(a, k)]
                }) by {
                    if a < n && k < succ[a].len() {
                        let e = succ[a][k];
                        assert(pred[e.0] == seq![(a, k)]);
                    } else {
                        assert(pred2[n] =~= seq![(a, k)]);
                    }
                }
                assert forall|a: int, j: int, k: int|
                    0 <= a < succ2.len() && 0 <= j < k < succ2[a].len() implies (
                #[trigger] succ2[a][j]).0 < (#[trigger] succ2[a][k]).0 by {
                    if a < n && k < succ[a].len() {
                        assert(succ[a][j].0 < succ[a][k].0);
                    } else {
                        let e = succ[a][j];
                        assert(e.0 < n);
                    }
                }
                assert forall|b: int| 0 <= b < pred2.len() implies ({
                    let q = #[trigger] pred2[b];
                    &&& q.len() <= 1
                    &&& q.len() == 1 ==> {
                        &&& 0 <= q[0].0 < b
                        &&& 0 <= q[0].1 < succ2[q[0].0].len()
                        &&& succ2[q[0].0][q[0].1] == (b, q[0].1)
                    }
                }) by {
                    if b < n {
                        let q = pred[b];
                        assert(pred2[b] == q);
                    }
                }
            }
            assert(self.ids_wf()) by {
                assert forall|i: int| 0 <= i < self.nodes@.len() implies ({
                    let key = (#[trigger] self.nodes@[i]).id.0;
                    &&& self.id_to_tree_idx@.contains_key(key)
                    &&& self.id_to_tree_idx@[key] == i
                }) by {
                    if i < n {
                        assert(self.nodes@[i] == old(self).nodes@[i]);
                    }
                }
            }
            let names = old(self).class_names();
            let held = old(self).classes@;
            let names2 = self.class_names();
            let held2 = self.classes@;
            assert(entered(names, held, names2, held2, wanted, id));
            assert(self.nodes@[n].class_names() == wanted);
            assert(self.classes_wf()) by {
                assert forall|k: int, m: int|
                    0 <= k < held2.len() && 0 <= m < held2[k].node_ids@.len() implies ({
                    let x = #[trigger] self.classes@[k].node_ids@[m];
                    &&& self.id_to_tree_idx@.contains_key(x.0)
                    &&& self.nodes@[self.id_to_tree_idx@[x.0] as int].class_names().contains(
                        self.class_names()[k],
                    )
                }) by {
                    let x = held2[k].node_ids@[m];
                    if k < names.len() && m < held[k].node_ids@.len() {
                        assert(x == held[k].node_ids@[m]);
                        assert(old(self).id_to_tree_idx@.contains_key(x.0));
                        assert(names2[k] == names[k]);
                    } else if k < names.len() {
                        assert(x == id);
                        assert(wanted.contains(names2[k]));
                    } else {
                        assert(x == id);
                        assert(wanted.contains(names2[k]));
                    }
                }
                assert forall|i: int, c: int|
                    0 <= i < self.nodes@.len() && 0 <= c < self.nodes@[i].classes@.len() implies ({
                    let k = position_of(
                        self.class_names(),
                        #[trigger] self.nodes@[i].class_names()[c],
                    );
                    &&& k < self.classes@.len()
                    &&& self.classes@[k].node_ids@.contains(self.nodes@[i].id)
                }) by {
                    if i < n {
                        assert(self.nodes@[i] == old(self).nodes@[i]);
                        let name = old(self).nodes@[i].class_names()[c];
                        let k = position_of(names, name);
                        lemma_position_of(names, name);
                        lemma_position_of_prefix(names, names2, name);
                        let w = choose|w: int|
                            0 <= w < held[k].node_ids@.len() && held[k].node_ids@[w]
                                == old(self).nodes@[i].id;
                        assert(held2[k].node_ids@[w] == held[k].node_ids@[w]);
                    } else {
                        let name = wanted[c];
                        let k = position_of(names2, name);
                        assert(held2[k].node_ids@.last() == id);
                        assert(held2[k].node_ids@[held2[k].node_ids@.len() - 1] == id);
                    }
                }
            }
            assert(self.stale_wf()) by {
                let list = self.nodes_with_deprecated_styles@;
                let list0 = old(self).nodes_with_deprecated_styles@;
                assert forall|i: int|
                    0 <= i < self.nodes@.len() && #[trigger] self.deprecated@[i] implies list.contains(
                    i as usize,
                ) by {
                    if i < n {
                        assert(old(self).deprecated@[i]);
                        let w = choose|w: int| 0 <= w < list0.len() && list0[w] == i as usize;
                        assert(list[w] == i as usize);
                    } else {
                        assert(list[list.len() - 1] == i as usize);
                    }
                }
            }
            assert(self.styles_wf()) by {
                assert forall|i: int|
                    0 <= i < self.nodes@.len() && !self.deprecated@[i] implies (
                #[trigger] self.nodes@[i]).style == self.resolved_style(i) by {
                    assert(i < n);
                    assert(self.nodes@[i] == old(self).nodes@[i]);
                    let own = old(self).nodes@[i].class_names();
                    assert forall|c: int| 0 <= c < own.len() implies position_of(
                        names,
                        #[trigger] own[c],
                    ) < names.len() by {}
                    lemma_records_for_kept(names, held, names2, held2, own);
                    assert(old(self).nodes@[i].style == old(self).resolved_style(i));
                }
            }
            assert(self.extends(old(self), id, kind, parent_id, classes)) by {
                assert forall|i: int|
                    #![trigger self.node_at(i)]
                    #![trigger self.parent_index(i)]
                    #![trigger self.is_deprecated(i)]
                    #![trigger self.child_indices(i)]
                    0 <= i < n implies ({
                    &&& self.node_at(i) == old(self).node_at(i)
                    &&& self.parent_index(i) == old(self).parent_index(i)
                    &&& self.is_deprecated(i) == old(self).is_deprecated(i)
                    &&& self.child_indices(i) == if parent_id.is_some() && i == old(self).index_of(
                        parent_id.unwrap(),
                    ) {
                        old(self).child_indices(i).push(n)
                    } else {
                        old(self).child_indices(i)
                    }
                }) by {
                    assert(pred2[i] == pred[i]);
                    if parent_id.is_some() && i == old(self).index_of(parent_id.unwrap()) {
                        assert(self.child_indices(i) =~= old(self).child_indices(i).push(n));
                    } else {
                        assert(succ2[i] == succ[i]);
                    }
                }
                assert(self.child_indices(n) =~= Seq::<int>::empty());
            }
        }
        Ok(())
    }

    /// The processing order of the tree, as node indices: the one list that
    /// holds every node once, roots first by the order of their making,
    /// then level by level the children of each node by rank.
    pub closed spec fn processing_order(&self) -> Seq<int> {
        choose|order: Seq<int>| level_order(self.nodes_tree, order)
    }

    /// What the processing order is like: it holds every node once; a node
    /// stands after its parent and after the siblings of lower rank; the
    /// roots stand first, in the order of their making; and the children of
    /// a node that stands earlier stand before those of a node that stands
    /// later.
    pub proof fn lemma_processing_order(&self)
        requires
            self.wf(),
            exists|order: Seq<int>| self.is_processing_order(order),
        ensures
            self.processing_order().len() == self.len(),
            self.processing_order().no_duplicates(),
            forall|k: int|
                0 <= k < self.len() ==> 0 <= (#[trigger] self.processing_order()[k]) < self.len(),
            forall|i: int| 0 <= i < self.len() ==> self.processing_order().contains(i),
            forall|b: int|
                0 <= b < self.len() && self.parent_index(
                    #[trigger] self.processing_order()[b],
                ).is_some() ==> exists|a: int|
                    0 <= a < b && self.processing_order()[a] == self.parent_index(
                        self.processing_order()[b],
                    ).unwrap(),
            forall|a: int, b: int|
                0 <= a < b < self.len() && self.parent_index(
                    #[trigger] self.processing_order()[a],
                ).is_some() && self.parent_index(self.processing_order()[a]) == self.parent_index(
                    #[trigger] self.processing_order()[b],
                ) ==> self.rank_of(self.processing_order()[a]) < self.rank_of(
                    self.processing_order()[b],
                ),
            forall|a: int, b: int|
                0 <= a < b < self.len() && self.parent_index(
                    #[trigger] self.processing_order()[b],
                ).is_none() ==> self.parent_index(#[trigger] self.processing_order()[a]).is_none()
                    && self.processing_order()[a] < self.processing_order()[b],
            forall|a: int, b: int|
                0 <= a < b < self.len() && self.parent_index(
                    #[trigger] self.processing_order()[a],
                ).is_some() && self.parent_index(#[trigger] self.processing_order()[b]).is_some()
                    ==> self.processing_order().index_of(
                    self.parent_index(self.processing_order()[a]).unwrap(),
                ) <= self.processing_order().index_of(
                    self.parent_index(self.processing_order()[b]).unwrap(),
                ),
    {
        let witness = choose|order: Seq<int>| self.is_processing_order(order);
        assert(level_order(self.nodes_tree, witness));
        let order = self.processing_order();
        assert(level_order(self.nodes_tree, order));
        crate::algo::lemma_permutation_holds_all(order, self.len() as int);
        assert forall|a: int, b: int|
            0 <= a < b < self.len() && self.parent_index(#[trigger] order[a]).is_some()
                && self.parent_index(order[a]) == self.parent_index(
                #[trigger] order[b],
            ) implies self.rank_of(order[a]) < self.rank_of(order[b]) by {
            assert(crate::algo::may_precede(self.nodes_tree, order[a], order[b]));
        }
        assert forall|a: int, b: int|
            0 <= a < b < self.len() && self.parent_index(
                #[trigger] order[b],
            ).is_none() implies self.parent_index(#[trigger] order[a]).is_none() && order[a]
            < order[b] by {
            assert(crate::algo::may_precede(self.nodes_tree, order[a], order[b]));
        }
    }

    /// Whether `order` is the processing order of the tree.
    pub closed spec fn is_processing_order(&self, order: Seq<int>) -> bool {
        level_order(self.nodes_tree, order)
    }

    /// The tree has one processing order.
    pub proof fn lemma_processing_order_unique(&self, order: Seq<int>)
        requires
            self.wf(),
            self.is_processing_order(order),
        ensures
            order == self.processing_order(),
    {
        lemma_level_order_unique(self.nodes_tree, order, self.processing_order());
    }

    /// The graph of the tree's edges: a ranked forest with one node per
    /// node of the tree, in which parents, children and ranks are those of
    /// the tree, and whose processing order is the tree's.
    pub fn graph(&self) -> (g: &RankGraph)
        requires
            self.wf(),
        ensures
            ranked_forest(*g),
            graph_successors(*g).len() == self.len(),
            forall|i: int| parent_in(*g, i) == #[trigger] self.parent_index(i),
            forall|i: int| children_in(*g, i) == #[trigger] self.child_indices(i),
            forall|i: int| rank_in(*g, i) == #[trigger] self.rank_of(i),
            forall|order: Seq<int>|
                level_order(*g, order) == #[trigger] self.is_processing_order(order),
    {
        &self.nodes_tree
    }

    /// The processing order of the tree, as node indices.
    pub fn toposort_indices(&self) -> (r: Vec<usize>)
        requires
            self.wf(),
        ensures
            as_ints(r@) == self.processing_order(),
            self.is_processing_order(as_ints(r@)),
    {
        let r = stable_toposort(&self.nodes_tree);
        proof {
            self.lemma_processing_order_unique(as_ints(r@));
        }
        r
    }

    /// The processing order of the tree, as identities.
    pub fn toposort(&self) -> (r: Vec<UINodeId>)
        requires
            self.wf(),
        ensures
            r@ == self.processing_order().map_values(|i: int| self.node_at(i).id),
    {
        let indices = self.toposort_indices();
        proof {
            self.lemma_processing_order();
            assert forall|k: int| 0 <= k < indices@.len() implies (#[trigger] indices@[k])
                < self.len() by {
                assert(as_ints(indices@)[k] == indices@[k]);
            }
        }
        let r = self.ids_of(&indices);
        proof {
            let wanted = self.processing_order().map_values(|i: int| self.node_at(i).id);
            assert(r@.len() == wanted.len());
            assert forall|k: int| 0 <= k < r@.len() implies r@[k] == wanted[k] by {
                assert(as_ints(indices@)[k] == indices@[k]);
            }
            assert(r@ =~= wanted);
        }
        r
    }

    /// The identities of the nodes whose tag this engine does not know, in
    /// the order of their making.
    pub fn get_unknown_nodes(&self) -> (r: Vec<UINodeId>)
        requires
            self.wf(),
        ensures
            self.lists_in_order(r@, |i: int| self.node_at(i).kind is Unknown),
    {
        let ghost wanted = |i: int| self.node_at(i).kind is Unknown;
        let mut found: Vec<UINodeId> = Vec::new();
        let ghost mut at: Seq<int> = Seq::empty();
        let mut i: usize = 0;
        proof {
            self.lemma_shape();
        }
        while i < self.nodes.len()
            invariant
                self.wf(),
                i <= self.nodes@.len(),
                at.len() == found@.len(),
                forall|k: int|
                    0 <= k < found@.len() ==> 0 <= (#[trigger] at[k]) < i && found@[k]
                        == self.nodes@[at[k]].id && self.nodes@[at[k]].kind is Unknown,
                forall|j: int, k: int| 0 <= j < k < found@.len() ==> at[j] < at[k],
                forall|j: int|
                    0 <= j < i && (#[trigger] self.nodes@[j]).kind is Unknown ==> found@.contains(
                        self.nodes@[j].id,
                    ),
            decreases self.nodes@.len() - i,
        {
            if self.nodes[i].is_unknown_kind() {
                let ghost before = found@;
                found.push(self.nodes[i].id);
                proof {
                    at = at.push(i as int);
                    assert forall|j: int|
                        0 <= j < i + 1 && (#[trigger] self.nodes@[j]).kind is Unknown implies found@.contains(
                        self.nodes@[j].id,
                    ) by {
                        if j < i {
                            let w = choose|w: int|
                                0 <= w < before.len() && before[w] == self.nodes@[j].id;
                            assert(found@[w] == before[w]);
                        } else {
                            assert(found@[found@.len() - 1] == self.nodes@[j].id);
                        }
                    }
                }
            }
            i += 1;
        }
        proof {
            assert forall|k: int| 0 <= k < found@.len() implies self.contains(#[trigger] found@[k])
                && wanted(self.index_of(found@[k])) by {
                assert(self.node_at(at[k]).id == found@[k]);
            }
            assert forall|j: int, k: int| 0 <= j < k < found@.len() implies self.index_of(
                #[trigger] found@[j],
            ) < self.index_of(#[trigger] found@[k]) by {
                assert(self.node_at(at[j]).id == found@[j]);
                assert(self.node_at(at[k]).id == found@[k]);
            }
            assert forall|j: int| 0 <= j < self.len() && #[trigger] wanted(j) implies found@.contains(
                self.node_at(j).id,
            ) by {
                assert(self.nodes@[j].kind is Unknown);
            }
        }
        found
    }

    /// In a tree without nodes out of date every node has the style that
    /// its classes resolve to.
    pub proof fn lemma_styles_fresh(&self)
        requires
            self.wf(),
            forall|i: int| 0 <= i < self.len() ==> !self.is_deprecated(i),
        ensures
            forall|i: int|
                0 <= i < self.len() ==> (#[trigger] self.node_at(i)).style == self.resolved_style(i),
    {
        assert forall|i: int| 0 <= i < self.len() implies (#[trigger] self.node_at(i)).style
            == self.resolved_style(i) by {
            assert(!self.is_deprecated(i));
        }
    }

    /// The identities of the nodes whose resolved style is out of date, in
    /// the order in which they were marked.
    pub fn deprecated_ids(&self) -> (r: Vec<UINodeId>)
        requires
            self.wf(),
        ensures
            forall|id: UINodeId| r@.contains(id) <==> self.stale().contains(id),
    {
        let r = self.ids_of(&self.nodes_with_deprecated_styles);
        proof {
            self.lemma_shape();
            let list = self.nodes_with_deprecated_styles@;
            assert forall|id: UINodeId| r@.contains(id) <==> self.stale().contains(id) by {
                if r@.contains(id) {
                    let w = choose|w: int| 0 <= w < r@.len() && r@[w] == id;
                    assert(r@[w] == self.node_at(list[w] as int).id);
                    assert(self.deprecated@[list[w] as int]);
                }
                if self.stale().contains(id) {
                    let i = self.index_of(id);
                    assert(self.deprecated@[i]);
                    let w = choose|w: int| 0 <= w < list.len() && list[w] == i as usize;
                    assert(r@[w] == id);
                }
            }
        }
        r
    }

    /// Whether any node's resolved style is out of date.
    pub fn need_style_recalculation(&self) -> (r: bool)
        requires
            self.wf(),
        ensures
            r == exists|i: int| 0 <= i < self.len() && self.is_deprecated(i),
    {
        let r = self.nodes_with_deprecated_styles.len() > 0;
        proof {
            if r {
                let i = self.nodes_with_deprecated_styles@[0];
                assert(0 <= i < self.len() && self.is_deprecated(i as int));
            } else {
                assert forall|i: int| 0 <= i < self.len() implies !self.is_deprecated(i) by {
                    if self.deprecated@[i] {
                        assert(self.nodes_with_deprecated_styles@.contains(i as usize));
                    }
                }
            }
        }
        r
    }

    /// The tree's nodes, edges and identities are those of `before`.
    pub open spec fn same_nodes(&self, before: &UITree) -> bool {
        &&& self.len() == before.len()
        &&& forall|id: UINodeId|
            (#[trigger] self.contains(id)) == before.contains(id) && self.index_of(id)
                == before.index_of(id)
        &&& forall|i: int|
            0 <= i < self.len() ==> {
                &&& (#[trigger] self.node_at(i)).id == before.node_at(i).id
                &&& self.node_at(i).kind == before.node_at(i).kind
                &&& self.node_at(i).classes == before.node_at(i).classes
                &&& self.parent_index(i) == before.parent_index(i)
                &&& self.child_indices(i) == before.child_indices(i)
                &&& self.rank_of(i) == before.rank_of(i)
            }
        &&& self.processing_order() == before.processing_order()
    }

    /// How the classes stand after `style` has been added to those of
    /// `before`: the class of that name, made if it was missing, has the
    /// record in place of the one its source gave before, or after all its
    /// other records; no other class changes.
    pub open spec fn restyled(&self, before: &UITree, style: UIStyle) -> bool {
        let names = before.class_names();
        let k = position_of(names, style.class@);
        &&& 0 <= k <= names.len()
        &&& self.class_names() == if k < names.len() {
            names
        } else {
            names.push(style.class@)
        }
        &&& self.class_list().len() == self.class_names().len()
        &&& forall|j: int|
            0 <= j < names.len() && j != k ==> #[trigger] self.class_list()[j]
                == before.class_list()[j]
        &&& self.class_list()[k].node_ids@ == if k < names.len() {
            before.class_list()[k].node_ids@
        } else {
            Seq::empty()
        }
        &&& self.class_list()[k].source_ids() == if k < names.len() {
            sources_with(before.class_list()[k].source_ids(), style.id@)
        } else {
            seq![style.id@]
        }
        &&& self.class_list()[k].rules@ == if k < names.len() {
            rules_with(
                before.class_list()[k].source_ids(),
                before.class_list()[k].rules@,
                style.id@,
                style.rules,
            )
        } else {
            seq![style.rules]
        }
    }

    /// Gives the class `style.class` the record `style.rules` from the
    /// source `style.id`, and marks out of date exactly the nodes that
    /// reference that class, besides those that were out of date already.
    pub fn add_styles(&mut self, style: UIStyle)
        requires
            old(self).wf(),
        ensures
            final(self).wf(),
            final(self).same_nodes(old(self)),
            final(self).restyled(old(self), style),
            forall|i: int|
                0 <= i < old(self).len() ==> (#[trigger] final(self).node_at(i)).style == old(
                    self,
                ).node_at(i).style,
            forall|i: int|
                0 <= i < old(self).len() ==> (#[trigger] final(self).is_deprecated(i)) == (old(
                    self,
                ).is_deprecated(i) || old(self).node_at(i).class_names().contains(style.class@)),
    {
        let ghost names = self.class_names();
        let ghost held = self.classes@;
        let ghost name = style.class@;
        let at = find_class(&self.class_names, &style.class);
        proof {
            lemma_position_of(names, name);
        }
        if at == self.class_names.len() {
            self.class_names.push(style.class.clone());
            self.classes.push(StyleClass::new());
        }
        let ghost names2 = self.class_names();
        let ghost held2 = self.classes@;
        proof {
            if at == names.len() {
                assert(names2 =~= names.push(name));
                assert forall|a: int, b: int|
                    0 <= a < names2.len() && 0 <= b < names2.len() && a != b implies names2[a]
                    != names2[b] by {
                    if a < names.len() && b < names.len() {
                        assert(names[a] != names[b]);
                    }
                }
            } else {
                assert(names2 == names);
            }
        }
        let UIStyle { id: source, class: _, rules } = style;
        let mut class = StyleClass::new();
        std::mem::swap(&mut class, &mut self.classes[at]);
        proof {
            assert(class == held2[at as int]);
            if at < held.len() {
                assert(held[at as int].wf());
            }
        }
        class.add_styles(source, rules);
        let ghost listed = class.node_ids@;
        std::mem::swap(&mut class, &mut self.classes[at]);
        let ghost held3 = self.classes@;
        assert(held3 =~= held2.update(at as int, held3[at as int]));

        let ghost flags = self.deprecated@;
        let mut m: usize = 0;
        let count = self.classes[at].node_ids.len();
        while m < count
            invariant
                m <= count,
                count == listed.len(),
                at < self.classes@.len(),
                self.classes@ == held3,
                held3[at as int].node_ids@ == listed,
                self.nodes == old(self).nodes,
                self.nodes_tree == old(self).nodes_tree,
                self.id_to_tree_idx == old(self).id_to_tree_idx,
                self.class_names() == names2,
                old(self).ids_wf(),
                old(self).stale_wf(),
                flags == old(self).deprecated@,
                forall|w: int|
                    0 <= w < listed.len() ==> old(self).id_to_tree_idx@.contains_key(
                        (#[trigger] listed[w]).0,
                    ),
                self.stale_wf(),
                forall|i: int|
                    0 <= i < self.nodes@.len() ==> (#[trigger] self.deprecated@[i]) == (flags[i]
                        || exists|w: int|
                        0 <= w < m && old(self).id_to_tree_idx@[listed[w].0] == i),
            decreases count - m,
        {
            let node_id = self.classes[at].node_ids[m];
            assert(node_id == listed[m as int]);
            let found = self.id_to_tree_idx.get(&node_id.0);
            let i = match found {
                Some(i) => *i,
                None => 0,
            };
            let ghost list_before = self.nodes_with_deprecated_styles@;
            let ghost flags_before = self.deprecated@;
            mark_deprecated(&mut self.nodes_with_deprecated_styles, &mut self.deprecated, i);
            proof {
                let list = self.nodes_with_deprecated_styles@;
                assert forall|w: int| 0 <= w < list.len() implies ({
                    let j = #[trigger] list[w];
                    j < self.nodes@.len() && self.deprecated@[j as int]
                }) by {
                    if w < list_before.len() {
                        assert(list[w] == list_before[w]);
                    }
                }
                assert forall|j: int|
                    0 <= j < self.nodes@.len() && #[trigger] self.deprecated@[j] implies list.contains(
                    j as usize,
                ) by {
                    if flags_before[j] {
                        let w = choose|w: int|
                            0 <= w < list_before.len() && list_before[w] == j as usize;
                        assert(list[w] == j as usize);
                    } else {
                        assert(list[list.len() - 1] == j as usize);
                    }
                }
                assert forall|j: int| 0 <= j < self.nodes@.len() implies (
                #[trigger] self.deprecated@[j]) == (flags[j] || exists|w: int|
                    0 <= w < m + 1 && old(self).id_to_tree_idx@[listed[w].0] == j) by {
                    if j == i {
                        assert(old(self).id_to_tree_idx@[listed[m as int].0] == j);
                    } else if flags_before[j] && !flags[j] {
                        let w = choose|w: int|
                            0 <= w < m && old(self).id_to_tree_idx@[listed[w].0] == j;
                        assert(0 <= w < m + 1);
                    }
                }
            }
            m += 1;
        }
        proof {
            let k = at as int;
            assert(self.graph_wf());
            assert(self.ids_wf());
            assert forall|i: int| 0 <= i < self.nodes@.len() implies (
            #[trigger] self.deprecated@[i]) == (flags[i] || self.nodes@[i].class_names().contains(
                name,
            )) by {
                let own = self.nodes@[i].class_names();
                if exists|w: int| 0 <= w < listed.len() && old(self).id_to_tree_idx@[listed[w].0] == i {
                    let w = choose|w: int|
                        0 <= w < listed.len() && old(self).id_to_tree_idx@[listed[w].0] == i;
                    assert(k < held.len());
                    assert(held[k].node_ids@[w] == listed[w]);
                    assert(own.contains(names[k]));
                }
                if own.contains(name) {
                    let c = choose|c: int| 0 <= c < own.len() && own[c] == name;
                    assert(position_of(names, own[c]) < held.len());
                    assert(held[k].node_ids@.contains(self.nodes@[i].id));
                    let w = choose|w: int|
                        0 <= w < held[k].node_ids@.len() && held[k].node_ids@[w]
                            == self.nodes@[i].id;
                    assert(listed[w] == self.nodes@[i].id);
                    assert(old(self).id_to_tree_idx@[listed[w].0] == i);
                }
            }
            assert(self.classes_wf()) by {
                assert forall|j: int| 0 <= j < held3.len() implies (#[trigger] held3[j]).wf() by {
                    if j != k {
                        assert(held3[j] == held2[j]);
                        assert(held2[j] == held[j]);
                    }
                }
                assert forall|j: int, w: int|
                    0 <= j < held3.len() && 0 <= w < held3[j].node_ids@.len() implies ({
                    let x = #[trigger] self.classes@[j].node_ids@[w];
                    &&& self.id_to_tree_idx@.contains_key(x.0)
                    &&& self.nodes@[self.id_to_tree_idx@[x.0] as int].class_names().contains(
                        self.class_names()[j],
                    )
                }) by {
                    if j != k {
                        assert(held3[j] == held[j]);
                    }
                    assert(held3[j].node_ids@[w] == held[j].node_ids@[w]);
                    assert(names2[j] == names[j]);
                }
                assert forall|i: int, c: int|
                    0 <= i < self.nodes@.len() && 0 <= c < self.nodes@[i].classes@.len() implies ({
                    let p = position_of(
                        self.class_names(),
                        #[trigger] self.nodes@[i].class_names()[c],
                    );
                    &&& p < self.classes@.len()
                    &&& self.classes@[p].node_ids@.contains(self.nodes@[i].id)
                }) by {
                    let wanted = self.nodes@[i].class_names()[c];
                    let p = position_of(names, wanted);
                    lemma_position_of(names, wanted);
                    assert(p < held.len());
                    lemma_position_of_prefix(names, names2, wanted);
                    if p != k {
                        assert(held3[p] == held[p]);
                    }
                }
            }
            assert(self.styles_wf()) by {
                assert forall|i: int|
                    0 <= i < self.nodes@.len() && !self.deprecated@[i] implies (
                #[trigger] self.nodes@[i]).style == self.resolved_style(i) by {
                    let own = self.nodes@[i].class_names();
                    assert(!flags[i]);
                    assert(!own.contains(name));
                    assert forall|c: int| 0 <= c < own.len() implies position_of(
                        names,
                        #[trigger] own[c],
                    ) < names.len() by {}
                    lemma_records_for_kept(names, held, names2, held2, own);
                    assert forall|c: int| 0 <= c < own.len() implies position_of(
                        names2,
                        #[trigger] own[c],
                    ) != k by {
                        lemma_position_of(names2, own[c]);
                        lemma_position_of(names, own[c]);
                        lemma_position_of_prefix(names, names2, own[c]);
                        if position_of(names2, own[c]) == k {
                            assert(names2[k] == name);
                            assert(own.contains(name));
                        }
                    }
                    lemma_records_for_other(names2, held2, held3, own, k);
                    assert(old(self).nodes@[i].style == old(self).resolved_style(i));
                }
            }
            assert(self.restyled(old(self), style)) by {
                assert forall|j: int| 0 <= j < names.len() && j != k implies #[trigger] self.class_list()[j]
                    == old(self).class_list()[j] by {
                    assert(held3[j] == held2[j]);
                }
                if k == names.len() {
                    assert(held2[k].source_ids() == Seq::<Seq<char>>::empty());
                    lemma_position_of(Seq::<Seq<char>>::empty(), style.id@);
                    assert(held3[k].source_ids() =~= seq![style.id@]);
                    assert(held3[k].rules@ =~= seq![style.rules]);
                }
            }
        }
    }

    /// Resolves the style of every node that is out of date, as the merge
    /// of the records of its classes, and leaves no node out of date.
    pub fn recalculate_styles(&mut self)
        requires
            old(self).wf(),
        ensures
            final(self).wf(),
            final(self).same_nodes(old(self)),
            final(self).class_names() == old(self).class_names(),
            final(self).class_list() == old(self).class_list(),
            forall|i: int|
                0 <= i < final(self).len() ==> !final(self).is_deprecated(i) && (
                #[trigger] final(self).node_at(i)).style == old(self).resolved_style(i),
            forall|i: int|
                0 <= i < old(self).len() && !(#[trigger] old(self).is_deprecated(i))
                    ==> final(self).node_at(i).style == old(self).node_at(i).style,
    {
        let mut m: usize = 0;
        let count = self.nodes_with_deprecated_styles.len();
        while m < count
            invariant
                m <= count,
                count == self.nodes_with_deprecated_styles@.len(),
                self.nodes_tree == old(self).nodes_tree,
                self.id_to_tree_idx == old(self).id_to_tree_idx,
                self.class_names == old(self).class_names,
                self.classes == old(self).classes,
                self.nodes_with_deprecated_styles == old(self).nodes_with_deprecated_styles,
                self.nodes@.len() == old(self).nodes@.len(),
                self.deprecated@.len() == self.nodes@.len(),
                old(self).wf(),
                forall|i: int|
                    0 <= i < self.nodes@.len() ==> {
                        &&& (#[trigger] self.nodes@[i]).id == old(self).nodes@[i].id
                        &&& self.nodes@[i].kind == old(self).nodes@[i].kind
                        &&& self.nodes@[i].classes == old(self).nodes@[i].classes
                    },
                forall|w: int|
                    0 <= w < count ==> (#[trigger] self.nodes_with_deprecated_styles@[w])
                        < self.nodes@.len(),
                forall|i: int|
                    0 <= i < self.nodes@.len() && #[trigger] self.deprecated@[i] ==> exists|w: int|
                        m <= w < count && self.nodes_with_deprecated_styles@[w] == i,
                forall|i: int|
                    0 <= i < self.nodes@.len() && !self.deprecated@[i] ==> (
                    #[trigger] self.nodes@[i]).style == old(self).resolved_style(i),
                forall|i: int|
                    0 <= i < self.nodes@.len() && !(#[trigger] old(self).deprecated@[i])
                        ==> self.nodes@[i].style == old(self).nodes@[i].style,
            decreases count - m,
        {
            let i = self.nodes_with_deprecated_styles[m];
            assert(old(self).deprecated@[i as int]) by {
                assert(old(self).nodes_with_deprecated_styles@[m as int] == i);
            }
            let records = collect_records(&self.class_names, &self.classes, &self.nodes[i].classes);
            let resolved = UIStyleRules::merge(&records);
            let ghost nodes_before = self.nodes@;
            let ghost flags_before = self.deprecated@;
            self.nodes[i].set_style(resolved);
            self.deprecated[i] = false;
            proof {
                assert(old(self).class_names() == texts(self.class_names@));
                assert forall|j: int| 0 <= j < self.nodes@.len() implies ({
                    &&& (#[trigger] self.nodes@[j]).id == old(self).nodes@[j].id
                    &&& self.nodes@[j].kind == old(self).nodes@[j].kind
                    &&& self.nodes@[j].classes == old(self).nodes@[j].classes
                }) by {
                    if j != i {
                        assert(self.nodes@[j] == nodes_before[j]);
                    }
                }
                assert forall|j: int|
                    0 <= j < self.nodes@.len() && #[trigger] self.deprecated@[j] implies exists|
                    w: int,
                | m + 1 <= w < count && self.nodes_with_deprecated_styles@[w] == j by {
                    assert(flags_before[j]);
                    let w = choose|w: int|
                        m <= w < count && self.nodes_with_deprecated_styles@[w] == j;
                    assert(w != m);
                }
                assert forall|j: int|
                    0 <= j < self.nodes@.len() && !self.deprecated@[j] implies (
                #[trigger] self.nodes@[j]).style == old(self).resolved_style(j) by {
                    if j != i {
                        assert(self.nodes@[j] == nodes_before[j]);
                        assert(!flags_before[j]);
                    }
                }
            }
            m += 1;
        }
        self.nodes_with_deprecated_styles.clear();
        proof {
            assert forall|i: int| 0 <= i < self.nodes@.len() implies !self.deprecated@[i] by {
                if self.deprecated@[i] {
                    let w = choose|w: int|
                        count <= w < count && old(self).nodes_with_deprecated_styles@[w] == i;
                }
            }
            assert(self.ids_wf()) by {
                assert forall|i: int| 0 <= i < self.nodes@.len() implies ({
                    let key = (#[trigger] self.nodes@[i]).id.0;
                    &&& self.id_to_tree_idx@.contains_key(key)
                    &&& self.id_to_tree_idx@[key] == i
                }) by {
                    assert(self.nodes@[i].id == old(self).nodes@[i].id);
                }
                assert forall|k: u64| #[trigger]
                    self.id_to_tree_idx@.contains_key(k) implies ({
                    &&& self.id_to_tree_idx@[k] < self.nodes@.len()
                    &&& self.nodes@[self.id_to_tree_idx@[k] as int].id.0 == k
                }) by {
                    let i = old(self).id_to_tree_idx@[k] as int;
                    assert(self.nodes@[i].id == old(self).nodes@[i].id);
                }
            }
            assert forall|i: int| 0 <= i < self.nodes@.len() implies self.nodes@[i].class_names()
                == old(self).nodes@[i].class_names() by {
                assert(self.nodes@[i].classes == old(self).nodes@[i].classes);
            }
            assert(self.classes_wf()) by {
                assert forall|k: int, w: int|
                    0 <= k < self.classes@.len() && 0 <= w < self.classes@[k].node_ids@.len() implies ({
                    let x = #[trigger] self.classes@[k].node_ids@[w];
                    &&& self.id_to_tree_idx@.contains_key(x.0)
                    &&& self.nodes@[self.id_to_tree_idx@[x.0] as int].class_names().contains(
                        self.class_names()[k],
                    )
                }) by {
                    let x = old(self).classes@[k].node_ids@[w];
                    let i = old(self).id_to_tree_idx@[x.0] as int;
                    assert(self.nodes@[i].class_names() == old(self).nodes@[i].class_names());
                }
                assert forall|i: int, c: int|
                    0 <= i < self.nodes@.len() && 0 <= c < self.nodes@[i].classes@.len() implies ({
                    let k = position_of(
                        self.class_names(),
                        #[trigger] self.nodes@[i].class_names()[c],
                    );
                    &&& k < self.classes@.len()
                    &&& self.classes@[k].node_ids@.contains(self.nodes@[i].id)
                }) by {
                    assert(self.nodes@[i].class_names() == old(self).nodes@[i].class_names());
                    assert(self.nodes@[i].id == old(self).nodes@[i].id);
                    let k = position_of(
                        old(self).class_names(),
                        old(self).nodes@[i].class_names()[c],
                    );
                    assert(old(self).classes@[k].node_ids@.contains(old(self).nodes@[i].id));
                }
            }
            assert(self.styles_wf()) by {
                assert forall|i: int|
                    0 <= i < self.nodes@.len() && !self.deprecated@[i] implies (
                #[trigger] self.nodes@[i]).style == self.resolved_style(i) by {
                    assert(self.nodes@[i].class_names() == old(self).nodes@[i].class_names());
                }
            }
        }
    }

    /// Whether the `below`-th node lies under the `above`-th: as its child,
    /// or as a child of a node that lies under it.
    pub open spec fn descends(&self, above: int, below: int) -> bool
        decreases below,
    {
        match self.parent_index(below) {
            Some(q) => 0 <= q < below && (q == above || self.descends(above, q)),
            None => false,
        }
    }

    /// How many of the first `n` nodes do not lie under the `above`-th.
    pub open spec fn count_outside(&self, above: int, n: int) -> int
        decreases n,
    {
        if n <= 0 {
            0
        } else {
            self.count_outside(above, n - 1) + if self.descends(above, n - 1) {
                0int
            } else {
                1int
            }
        }
    }

    /// The rule records of the class `name`, in order; none if no class has
    /// that name.
    pub open spec fn records_of_class(&self, name: Seq<char>) -> Seq<UIStyleRules> {
        class_records(self.class_names(), self.class_list(), name)
    }

    /// What adding a node leaves as it was and what it adds, by identity:
    /// every node of before keeps its place, its parent and what it is;
    /// the new node is the last, under the parent it was given; and every
    /// class keeps its records.
    pub proof fn lemma_extends(
        &self,
        before: &UITree,
        id: UINodeId,
        kind: UINodeKind,
        parent_id: Option<UINodeId>,
        classes: Vec<String>,
    )
        requires
            before.wf(),
            self.wf(),
            before.accepts(id, parent_id),
            self.extends(before, id, kind, parent_id, classes),
        ensures
            self.len() == before.len() + 1,
            self.contains(id),
            self.index_of(id) == before.len(),
            self.node_at(self.index_of(id)).id == id,
            self.node_at(self.index_of(id)).kind == kind,
            self.node_at(self.index_of(id)).class_names() == texts(classes@),
            self.parent_of(id) == parent_id,
            forall|x: UINodeId| #[trigger] self.contains(x) <==> before.contains(x) || x == id,
            forall|x: UINodeId| #[trigger]
                before.contains(x) ==> {
                    &&& self.index_of(x) == before.index_of(x)
                    &&& self.node_at(self.index_of(x)) == before.node_at(before.index_of(x))
                    &&& self.parent_of(x) == before.parent_of(x)
                },
            forall|i: int| 0 <= i < self.len() ==> #[trigger] self.is_deprecated(i) == (i
                == before.len() || before.is_deprecated(i)),
            forall|name: Seq<char>| #[trigger]
                self.records_of_class(name) == before.records_of_class(name),
    {
        before.lemma_shape();
        self.lemma_shape();
        let n = before.len() as int;
        assert(self.node_at(n).id == id);
        assert forall|x: UINodeId| #[trigger] self.contains(x) <==> before.contains(x) || x
            == id by {
            if x != id {
                assert(self.contains(x) == before.contains(x));
            }
        }
        assert forall|x: UINodeId| #[trigger] before.contains(x) implies ({
            &&& self.index_of(x) == before.index_of(x)
            &&& self.node_at(self.index_of(x)) == before.node_at(before.index_of(x))
            &&& self.parent_of(x) == before.parent_of(x)
        }) by {
            assert(x != id);
            assert(self.contains(x) == before.contains(x));
            let i = before.index_of(x);
            assert(self.node_at(i) == before.node_at(i));
            assert(self.parent_index(i) == before.parent_index(i));
            if before.parent_index(i).is_some() {
                let q = before.parent_index(i).unwrap();
                assert(self.node_at(q) == before.node_at(q));
            }
        }
        if parent_id.is_some() {
            let p = parent_id.unwrap();
            let q = before.index_of(p);
            assert(self.node_at(q) == before.node_at(q));
        }
        assert forall|i: int| 0 <= i < self.len() implies #[trigger] self.is_deprecated(i) == (i
            == before.len() || before.is_deprecated(i)) by {}
        let names = before.class_names();
        let held = before.class_list();
        let names2 = self.class_names();
        let held2 = self.class_list();
        assert(entered(names, held, names2, held2, texts(classes@), id));
        assert forall|name: Seq<char>| #[trigger]
            self.records_of_class(name) == before.records_of_class(name) by {
            lemma_position_of(names, name);
            lemma_position_of(names2, name);
            let at = position_of(names, name);
            let at2 = position_of(names2, name);
            if at < names.len() {
                lemma_position_of_prefix(names, names2, name);
                assert(held2[at].rules@ == held[at].rules@);
            } else {
                if at2 < names2.len() {
                    if at2 < names.len() {
                        assert(names2[at2] == names[at2]);
                        assert(names[at2] != name);
                    }
                    assert(held2[at2].rules@.len() == 0);
                    assert(held2[at2].rules@ =~= Seq::<UIStyleRules>::empty());
                }
            }
        }
    }

    /// What the invariant says of the classes: every class has its name,
    /// names are distinct, and every class is well formed.
    pub proof fn lemma_classes(&self)
        requires
            self.wf(),
        ensures
            self.class_names().len() == self.class_list().len(),
            self.class_names().no_duplicates(),
            forall|k: int| 0 <= k < self.class_list().len() ==> (#[trigger] self.class_list()[k]).wf(),
    {
    }

    /// A tree without nodes that has the classes of `other` with their
    /// records, and lists no node under any of them.
    pub fn with_classes_of(other: &UITree) -> (r: UITree)
        requires
            other.wf(),
        ensures
            r.wf(),
            r.len() == 0,
            forall|id: UINodeId| !r.contains(id),
            r.class_names() == other.class_names(),
            forall|name: Seq<char>| #[trigger]
                r.records_of_class(name) == other.records_of_class(name),
    {
        let mut class_names: Vec<String> = Vec::new();
        let mut classes: Vec<StyleClass> = Vec::new();
        let mut k: usize = 0;
        while k < other.class_names.len()
            invariant
                other.wf(),
                k <= other.class_names@.len(),
                class_names@.len() == k,
                classes@.len() == k,
                forall|j: int| 0 <= j < k ==> (#[trigger] class_names@[j])@ == other.class_names@[j]@,
                forall|j: int|
                    0 <= j < k ==> {
                        &&& (#[trigger] classes@[j]).rules@ == other.classes@[j].rules@
                        &&& classes@[j].source_ids() == other.classes@[j].source_ids()
                        &&& classes@[j].node_ids@.len() == 0
                        &&& classes@[j].wf()
                    },
            decreases other.class_names@.len() - k,
        {
            let held = &other.classes[k];
            assert(held.wf());
            let mut rule_ids: Vec<UIStyleId> = Vec::new();
            let mut rules: Vec<UIStyleRules> = Vec::new();
            let mut j: usize = 0;
            while j < held.rules.len()
                invariant
                    held.wf(),
                    j <= held.rules@.len(),
                    rule_ids@.len() == j,
                    rules@.len() == j,
                    forall|m: int| 0 <= m < j ==> (#[trigger] rule_ids@[m])@ == held.rule_ids@[m]@,
                    forall|m: int| 0 <= m < j ==> (#[trigger] rules@[m]) == held.rules@[m],
                decreases held.rules@.len() - j,
            {
                rule_ids.push(UIStyleId(held.rule_ids[j].0.clone()));
                rules.push(held.rules[j]);
                j += 1;
            }
            let class = StyleClass { node_ids: Vec::new(), rule_ids, rules };
            proof {
                assert(class.rules@ =~= held.rules@);
                assert(class.source_ids() =~= held.source_ids());
            }
            class_names.push(other.class_names[k].clone());
            classes.push(class);
            k += 1;
        }
        let r = UITree {
            nodes_tree: graph_new(),
            nodes: Vec::new(),
            id_to_tree_idx: HashMap::new(),
            class_names,
            classes,
            nodes_with_deprecated_styles: Vec::new(),
            deprecated: Vec::new(),
        };
        proof {
            assert(r.class_names() =~= other.class_names());
            assert forall|name: Seq<char>| #[trigger]
                r.records_of_class(name) == other.records_of_class(name) by {
                lemma_position_of(other.class_names(), name);
            }
        }
        r
    }

    /// The kind of a node, copied.
    pub fn copy_kind(kind: &UINodeKind) -> (r: UINodeKind)
        ensures
            r == *kind,
    {
        match kind {
            UINodeKind::Div => UINodeKind::Div,
            UINodeKind::Unknown(tag) => UINodeKind::Unknown(tag.clone()),
        }
    }

    /// A list of class names, copied.
    pub fn copy_classes(classes: &Vec<String>) -> (r: Vec<String>)
        ensures
            texts(r@) == texts(classes@),
    {
        let mut copied: Vec<String> = Vec::new();
        let mut k: usize = 0;
        while k < classes.len()
            invariant
                k <= classes@.len(),
                copied@.len() == k,
                forall|j: int| 0 <= j < k ==> (#[trigger] copied@[j])@ == classes@[j]@,
            decreases classes@.len() - k,
        {
            copied.push(classes[k].clone());
            k += 1;
        }
        assert(texts(copied@) =~= texts(classes@));
        copied
    }
}

} // verus!
