//! Replacing what lies under a container: the nodes under it leave the
//! tree, and the nodes of a partial tree take their place.

use vstd::prelude::*;
use crate::error::UIError;
use crate::node::{UINode, UINodeId, UINodeKind};
use crate::tree::{texts, UITree};

verus! {

/// A node of a partial tree. A node without a parent goes directly under
/// the container that the partial tree is put under.
pub struct PartialNode {
    pub id: UINodeId,
    pub kind: UINodeKind,
    pub parent: Option<UINodeId>,
    pub classes: Vec<String>,
}

/// Nodes to be put under a container, parents before their children.
pub struct PartialUITree {
    nodes: Vec<PartialNode>,
}

impl PartialUITree {
    /// The nodes, in the order in which they were added.
    pub closed spec fn nodes(&self) -> Seq<PartialNode> {
        self.nodes@
    }

    /// The identities of the nodes, in the order in which they were added.
    pub open spec fn ids(&self) -> Seq<UINodeId> {
        self.nodes().map_values(|node: PartialNode| node.id)
    }

    /// Identities are distinct, and every parent is an earlier node.
    pub open spec fn wf(&self) -> bool {
        &&& self.ids().no_duplicates()
        &&& forall|j: int|
            0 <= j < self.nodes().len() && (#[trigger] self.nodes()[j]).parent.is_some()
                ==> exists|a: int| 0 <= a < j && self.ids()[a] == self.nodes()[j].parent.unwrap()
    }

    /// A partial tree without nodes.
    pub fn new() -> (r: PartialUITree)
        ensures
            r.wf(),
            r.nodes() == Seq::<PartialNode>::empty(),
    {
        let r = PartialUITree { nodes: Vec::new() };
        assert(r.ids() =~= Seq::<UINodeId>::empty());
        r
    }

    /// The number of nodes.
    pub fn len(&self) -> (n: usize)
        ensures
            n == self.nodes().len(),
    {
        self.nodes.len()
    }

    /// The `j`-th node.
    pub fn node(&self, j: usize) -> (r: &PartialNode)
        requires
            j < self.nodes().len(),
        ensures
            *r == self.nodes()[j as int],
    {
        &self.nodes[j]
    }

    /// Whether the partial tree holds a node `id`.
    pub fn holds(&self, id: &UINodeId) -> (r: bool)
        ensures
            r == self.ids().contains(*id),
    {
        let mut k: usize = 0;
        while k < self.nodes.len()
            invariant
                k <= self.nodes@.len(),
                forall|j: int| 0 <= j < k ==> self.ids()[j] != *id,
            decreases self.nodes@.len() - k,
        {
            if self.nodes[k].id == *id {
                assert(self.ids()[k as int] == *id);
                return true;
            }
            k += 1;
        }
        false
    }

    /// Adds a node under `parent`, or directly under the container if
    /// there is none. Refuses an identity that the partial tree already
    /// holds and a parent that it does not hold; a refused call changes
    /// nothing.
    pub fn add_node(
        &mut self,
        id: UINodeId,
        kind: UINodeKind,
        parent: Option<UINodeId>,
        classes: Vec<String>,
    ) -> (r: Result<(), UIError>)
        requires
            old(self).wf(),
        ensures
            final(self).wf(),
            r.is_ok() <==> !old(self).ids().contains(id) && (parent.is_some() ==> old(
                self,
            ).ids().contains(parent.unwrap())),
            match r {
                Ok(_) => final(self).nodes() == old(self).nodes().push(
                    PartialNode { id, kind, parent, classes },
                ),
                Err(e) => {
                    &&& *final(self) == *old(self)
                    &&& e == if old(self).ids().contains(id) {
                        UIError::DuplicateNodeId
                    } else {
                        UIError::UnknownParent
                    }
                },
            },
    {
        if self.holds(&id) {
            return Err(UIError::DuplicateNodeId);
        }
        match parent {
            Some(p) => {
                if !self.holds(&p) {
                    return Err(UIError::UnknownParent);
                }
            },
            None => {},
        }
        self.nodes.push(PartialNode { id, kind, parent, classes });
        proof {
            let before = old(self).ids();
            let after = self.ids();
            assert(after =~= before.push(id));
            assert forall|a: int, b: int|
                0 <= a < after.len() && 0 <= b < after.len() && a != b implies after[a]
                != after[b] by {
                if a < before.len() && b < before.len() {
                    assert(before[a] != before[b]);
                } else if a < before.len() {
                    assert(before.contains(before[a]));
                } else {
                    assert(before.contains(before[b]));
                }
            }
            assert forall|j: int|
                0 <= j < self.nodes().len() && (#[trigger] self.nodes()[j]).parent.is_some() implies exists|
                a: int,
            | 0 <= a < j && self.ids()[a] == self.nodes()[j].parent.unwrap() by {
                if j < before.len() {
                    assert(self.nodes()[j] == old(self).nodes()[j]);
                    let a = choose|a: int|
                        0 <= a < j && old(self).ids()[a] == old(self).nodes()[j].parent.unwrap();
                    assert(self.ids()[a] == old(self).ids()[a]);
                } else {
                    let a = choose|a: int| 0 <= a < before.len() && before[a] == parent.unwrap();
                    assert(self.ids()[a] == before[a]);
                }
            }
        }
        Ok(())
    }
}

/// Whether two nodes are the same node: the same identity, kind and
/// classes.
pub open spec fn same_node(a: UINode, b: UINode) -> bool {
    &&& a.id == b.id
    &&& a.kind == b.kind
    &&& a.class_names() == b.class_names()
}

/// Whether the node `x` of `before` stays when what lies under the
/// `above`-th node is taken out.
pub open spec fn stays(before: &UITree, above: int, x: UINodeId) -> bool {
    before.contains(x) && !before.descends(above, before.index_of(x))
}

/// Whether `fresh` holds the nodes among the first `upto` of `before` that
/// stay, in the order of their making, each as it was and under the parent
/// it had, all out of date, and with the class records of `before`.
pub open spec fn carried(fresh: &UITree, before: &UITree, above: int, upto: int) -> bool {
    &&& fresh.len() == before.count_outside(above, upto)
    &&& forall|x: UINodeId| #[trigger]
        fresh.contains(x) <==> stays(before, above, x) && before.index_of(x) < upto
    &&& forall|x: UINodeId| #[trigger]
        fresh.contains(x) ==> fresh.parent_of(x) == before.parent_of(x) && same_node(
            fresh.node_at(fresh.index_of(x)),
            before.node_at(before.index_of(x)),
        )
    &&& forall|x: UINodeId, y: UINodeId|
        fresh.contains(x) && fresh.contains(y) && before.index_of(x) < before.index_of(y)
            ==> #[trigger] fresh.index_of(x) < #[trigger] fresh.index_of(y)
    &&& forall|name: Seq<char>| #[trigger]
        fresh.records_of_class(name) == before.records_of_class(name)
    &&& forall|i: int| 0 <= i < fresh.len() ==> #[trigger] fresh.is_deprecated(i)
}

/// The parent that the `j`-th node of a partial tree gets under
/// `container`.
pub open spec fn target_of(partial: &PartialUITree, container: UINodeId, j: int) -> UINodeId {
    match partial.nodes()[j].parent {
        Some(p) => p,
        None => container,
    }
}

/// Whether `fresh` holds the nodes of `base`, each at its place and as it
/// was, and behind them the first `upto` nodes of the partial tree, each
/// under its parent, all out of date, with the class records of `base`.
pub open spec fn grafted(
    fresh: &UITree,
    base: &UITree,
    container: UINodeId,
    partial: &PartialUITree,
    upto: int,
) -> bool {
    &&& fresh.len() == base.len() + upto
    &&& forall|x: UINodeId| #[trigger]
        fresh.contains(x) <==> base.contains(x) || partial.ids().take(upto).contains(x)
    &&& forall|x: UINodeId| #[trigger]
        base.contains(x) ==> fresh.index_of(x) == base.index_of(x) && fresh.parent_of(x)
            == base.parent_of(x) && fresh.node_at(fresh.index_of(x)) == base.node_at(
            base.index_of(x),
        )
    &&& forall|j: int|
        0 <= j < upto ==> {
            let node = #[trigger] partial.nodes()[j];
            &&& fresh.contains(node.id)
            &&& fresh.index_of(node.id) == base.len() + j
            &&& fresh.parent_of(node.id) == Some(target_of(partial, container, j))
            &&& fresh.node_at(fresh.index_of(node.id)).id == node.id
            &&& fresh.node_at(fresh.index_of(node.id)).kind == node.kind
            &&& fresh.node_at(fresh.index_of(node.id)).class_names() == texts(node.classes@)
        }
    &&& forall|name: Seq<char>| #[trigger]
        fresh.records_of_class(name) == base.records_of_class(name)
    &&& forall|i: int| 0 <= i < fresh.len() ==> #[trigger] fresh.is_deprecated(i)
}

/// A node does not lie under a node that was made after it, nor under
/// itself.
pub proof fn lemma_not_under_later(tree: &UITree, above: int, below: int)
    requires
        tree.wf(),
        0 <= below <= above,
    ensures
        !tree.descends(above, below),
    decreases below,
{
    if tree.parent_index(below).is_some() {
        let q = tree.parent_index(below).unwrap();
        if 0 <= q < below {
            lemma_not_under_later(tree, above, q);
        }
    }
}

/// A node that stays is carried over when it is added to what was carried
/// before it.
proof fn lemma_carried_kept(
    fresh: &UITree,
    grown: &UITree,
    before: &UITree,
    above: int,
    i: int,
    kind: UINodeKind,
    parent_id: Option<UINodeId>,
    classes: Vec<String>,
)
    requires
        before.wf(),
        fresh.wf(),
        grown.wf(),
        0 <= i < before.len(),
        0 <= above < before.len(),
        !before.descends(above, i),
        carried(fresh, before, above, i),
        kind == before.node_at(i).kind,
        texts(classes@) == before.node_at(i).class_names(),
        parent_id == before.parent_of(before.node_at(i).id),
        fresh.accepts(before.node_at(i).id, parent_id),
        grown.extends(fresh, before.node_at(i).id, kind, parent_id, classes),
    ensures
        carried(grown, before, above, i + 1),
{
    let id = before.node_at(i).id;
    before.lemma_shape();
    grown.lemma_extends(fresh, id, kind, parent_id, classes);
    assert(before.contains(id) && before.index_of(id) == i);
    assert forall|x: UINodeId| #[trigger]
        grown.contains(x) <==> stays(before, above, x) && before.index_of(x) < i + 1 by {
        if x != id {
            assert(grown.contains(x) <==> fresh.contains(x));
            if stays(before, above, x) && before.index_of(x) == i {
                assert(before.node_at(before.index_of(x)).id == x);
            }
        }
    }
    assert forall|x: UINodeId| #[trigger] grown.contains(x) implies grown.parent_of(x)
        == before.parent_of(x) && same_node(
        grown.node_at(grown.index_of(x)),
        before.node_at(before.index_of(x)),
    ) by {
        if x != id {
            assert(fresh.contains(x));
        }
    }
    assert forall|x: UINodeId, y: UINodeId|
        grown.contains(x) && grown.contains(y) && before.index_of(x) < before.index_of(
            y,
        ) implies #[trigger] grown.index_of(x) < #[trigger] grown.index_of(y) by {
        fresh.lemma_shape();
        if y == id {
            assert(x != id);
            assert(fresh.contains(x));
            assert(grown.index_of(x) == fresh.index_of(x));
        } else if x == id {
            assert(fresh.contains(y));
            assert(before.index_of(y) < i);
        } else {
            assert(fresh.contains(x));
            assert(fresh.contains(y));
            assert(fresh.index_of(x) < fresh.index_of(y));
        }
    }
    assert forall|j: int| 0 <= j < grown.len() implies #[trigger] grown.is_deprecated(j) by {
        if j < fresh.len() {
            assert(fresh.is_deprecated(j));
        }
    }
}

/// A node that leaves changes nothing in what was carried before it.
proof fn lemma_carried_left(fresh: &UITree, before: &UITree, above: int, i: int)
    requires
        before.wf(),
        0 <= i < before.len(),
        before.descends(above, i),
        carried(fresh, before, above, i),
    ensures
        carried(fresh, before, above, i + 1),
{
    before.lemma_shape();
    assert forall|x: UINodeId| #[trigger]
        fresh.contains(x) <==> stays(before, above, x) && before.index_of(x) < i + 1 by {
        if stays(before, above, x) && before.index_of(x) == i {
            assert(false);
        }
    }
}

/// A node of the partial tree is grafted when it is added behind those
/// grafted before it.
proof fn lemma_grafted_next(
    fresh: &UITree,
    grown: &UITree,
    base: &UITree,
    container: UINodeId,
    partial: &PartialUITree,
    j: int,
    kind: UINodeKind,
    classes: Vec<String>,
)
    requires
        base.wf(),
        fresh.wf(),
        grown.wf(),
        partial.wf(),
        base.contains(container),
        0 <= j < partial.nodes().len(),
        grafted(fresh, base, container, partial, j),
        kind == partial.nodes()[j].kind,
        texts(classes@) == texts(partial.nodes()[j].classes@),
        fresh.accepts(partial.nodes()[j].id, Some(target_of(partial, container, j))),
        grown.extends(
            fresh,
            partial.nodes()[j].id,
            kind,
            Some(target_of(partial, container, j)),
            classes,
        ),
    ensures
        grafted(grown, base, container, partial, j + 1),
{
    let node = partial.nodes()[j];
    let id = node.id;
    let target = target_of(partial, container, j);
    grown.lemma_extends(fresh, id, kind, Some(target), classes);
    let ahead = partial.ids().take(j);
    let next = partial.ids().take(j + 1);
    assert(next =~= ahead.push(id));
    assert forall|x: UINodeId| next.contains(x) <==> ahead.contains(x) || x == id by {
        if next.contains(x) {
            let w = choose|w: int| 0 <= w < next.len() && next[w] == x;
            if w < ahead.len() {
                assert(ahead[w] == x);
            }
        }
        if ahead.contains(x) {
            let w = choose|w: int| 0 <= w < ahead.len() && ahead[w] == x;
            assert(next[w] == x);
        }
        if x == id {
            assert(next[j] == x);
        }
    }
    assert forall|x: UINodeId| #[trigger]
        grown.contains(x) <==> base.contains(x) || next.contains(x) by {
        assert(grown.contains(x) <==> fresh.contains(x) || x == id);
        assert(fresh.contains(x) <==> base.contains(x) || ahead.contains(x));
    }
    assert forall|x: UINodeId| #[trigger] base.contains(x) implies grown.index_of(x)
        == base.index_of(x) && grown.parent_of(x) == base.parent_of(x) && grown.node_at(
        grown.index_of(x),
    ) == base.node_at(base.index_of(x)) by {
        assert(fresh.contains(x));
    }
    assert forall|a: int| 0 <= a < j + 1 implies ({
        let other = #[trigger] partial.nodes()[a];
        &&& grown.contains(other.id)
        &&& grown.index_of(other.id) == base.len() + a
        &&& grown.parent_of(other.id) == Some(target_of(partial, container, a))
        &&& grown.node_at(grown.index_of(other.id)).id == other.id
        &&& grown.node_at(grown.index_of(other.id)).kind == other.kind
        &&& grown.node_at(grown.index_of(other.id)).class_names() == texts(other.classes@)
    }) by {
        if a < j {
            let other = partial.nodes()[a];
            assert(fresh.contains(other.id));
        }
    }
    assert forall|i: int| 0 <= i < grown.len() implies #[trigger] grown.is_deprecated(i) by {
        if i < fresh.len() {
            assert(fresh.is_deprecated(i));
        }
    }
}

impl UITree {
    /// Whether a partial tree names a node that stays when what lies under
    /// `container` is taken out.
    pub open spec fn collides(&self, container: UINodeId, partial: &PartialUITree) -> bool {
        exists|j: int|
            0 <= j < partial.ids().len() && stays(
                self,
                self.index_of(container),
                #[trigger] partial.ids()[j],
            )
    }

    /// How the tree stands after the nodes under `container` in `before`
    /// have made way for the nodes of `partial`: the nodes that stay are
    /// there in the order of their making, each as it was and under the
    /// parent it had; the nodes of the partial tree follow them in their
    /// order, each under its parent or, without one, under the container;
    /// no other node is there; every node is out of date; and every class
    /// has the records it had.
    pub open spec fn replaced(
        &self,
        before: &UITree,
        container: UINodeId,
        partial: &PartialUITree,
    ) -> bool {
        let above = before.index_of(container);
        let kept = before.count_outside(above, before.len() as int);
        &&& self.len() == kept + partial.nodes().len()
        &&& forall|x: UINodeId| #[trigger]
            self.contains(x) <==> stays(before, above, x) || partial.ids().contains(x)
        &&& forall|x: UINodeId| #[trigger]
            stays(before, above, x) ==> self.parent_of(x) == before.parent_of(x) && same_node(
                self.node_at(self.index_of(x)),
                before.node_at(before.index_of(x)),
            )
        &&& forall|x: UINodeId, y: UINodeId|
            stays(before, above, x) && stays(before, above, y) && before.index_of(x)
                < before.index_of(y) ==> #[trigger] self.index_of(x) < #[trigger] self.index_of(y)
        &&& forall|j: int|
            0 <= j < partial.nodes().len() ==> {
                let node = #[trigger] partial.nodes()[j];
                &&& self.index_of(node.id) == kept + j
                &&& self.parent_of(node.id) == Some(target_of(partial, container, j))
                &&& self.node_at(self.index_of(node.id)).id == node.id
                &&& self.node_at(self.index_of(node.id)).kind == node.kind
                &&& self.node_at(self.index_of(node.id)).class_names() == texts(node.classes@)
            }
        &&& forall|name: Seq<char>| #[trigger]
            self.records_of_class(name) == before.records_of_class(name)
        &&& forall|i: int| 0 <= i < self.len() ==> #[trigger] self.is_deprecated(i)
    }

    /// Takes out of the tree every node that lies under `container` and
    /// puts the nodes of `partial` in their place. Returns the identities
    /// of the nodes taken out, in the order of their making. Refuses a
    /// container that the tree does not hold, a partial tree that names a
    /// node that stays, and more nodes than the store can index; a refused
    /// call changes nothing.
    pub fn replace_child_nodes(&mut self, container: &UINodeId, partial: &PartialUITree) -> (r:
        Result<Vec<UINodeId>, UIError>)
        requires
            old(self).wf(),
            partial.wf(),
        ensures
            final(self).wf(),
            r.is_ok() <==> old(self).contains(*container) && !old(self).collides(
                *container,
                partial,
            ) && old(self).count_outside(
                old(self).index_of(*container),
                old(self).len() as int,
            ) + partial.nodes().len() <= u32::MAX,
            match r {
                Ok(removed) => {
                    &&& final(self).replaced(old(self), *container, partial)
                    &&& old(self).lists_in_order(
                        removed@,
                        |i: int| old(self).descends(old(self).index_of(*container), i),
                    )
                },
                Err(e) => {
                    &&& *final(self) == *old(self)
                    &&& e == if !old(self).contains(*container) {
                        UIError::UnknownNode
                    } else if old(self).collides(*container, partial) {
                        UIError::DuplicateNodeId
                    } else {
                        UIError::CapacityExceeded
                    }
                },
            },
    {
        let above = match self.find(container) {
            Some(i) => i,
            None => {
                return Err(UIError::UnknownNode);
            },
        };
        let n = self.node_count();
        let ghost before = *self;
        proof {
            before.lemma_shape();
        }
        let mut fresh = UITree::with_classes_of(self);
        let mut removed: Vec<UINodeId> = Vec::new();
        let mut under: Vec<bool> = Vec::new();
        let ghost mut gone: Seq<int> = Seq::empty();
        let mut i: usize = 0;
        while i < n
            invariant
                before == *self,
                *self == *old(self),
                before.wf(),
                fresh.wf(),
                n == before.len(),
                n <= u32::MAX,
                above < n,
                above == before.index_of(*container),
                i <= n,
                under@.len() == i,
                forall|k: int| 0 <= k < i ==> #[trigger] under@[k] == before.descends(above as int, k),
                carried(&fresh, &before, above as int, i as int),
                fresh.len() <= i,
                gone.len() == removed@.len(),
                forall|k: int|
                    0 <= k < removed@.len() ==> 0 <= (#[trigger] gone[k]) < i && before.descends(
                        above as int,
                        gone[k],
                    ) && removed@[k] == before.node_at(gone[k]).id,
                forall|a: int, b: int| 0 <= a < b < removed@.len() ==> gone[a] < gone[b],
                forall|k: int|
                    0 <= k < i && before.descends(above as int, k) ==> removed@.contains(
                        (#[trigger] before.node_at(k)).id,
                    ),
            decreases n - i,
        {
            proof {
                before.lemma_shape();
            }
            let node = self.node_by_index(i);
            let parent = self.parent_by_index(i);
            let leaves = match parent {
                Some(q) => q == above || under[q],
                None => false,
            };
            assert(leaves == before.descends(above as int, i as int));
            if leaves {
                let ghost listed = removed@;
                removed.push(node.id);
                proof {
                    gone = gone.push(i as int);
                    lemma_carried_left(&fresh, &before, above as int, i as int);
                    assert forall|k: int|
                        0 <= k < i + 1 && before.descends(above as int, k) implies removed@.contains(
                        (#[trigger] before.node_at(k)).id,
                    ) by {
                        if k < i {
                            let w = choose|w: int|
                                0 <= w < listed.len() && listed[w] == before.node_at(k).id;
                            assert(removed@[w] == listed[w]);
                        } else {
                            assert(removed@[removed@.len() - 1] == before.node_at(k).id);
                        }
                    }
                }
            } else {
                let parent_id = match parent {
                    Some(q) => Some(self.node_by_index(q).id),
                    None => None,
                };
                let kind = UITree::copy_kind(&node.kind);
                let classes = UITree::copy_classes(&node.classes);
                let ghost fresh_before = fresh;
                proof {
                    assert(before.contains(node.id) && before.index_of(node.id) == i);
                    assert(parent_id == before.parent_of(node.id));
                    assert(!fresh.contains(node.id));
                    if parent.is_some() {
                        let q = parent.unwrap() as int;
                        let up = before.node_at(q).id;
                        assert(before.contains(up) && before.index_of(up) == q);
                        assert(!before.descends(above as int, q));
                        assert(stays(&before, above as int, up));
                        assert(fresh.contains(up));
                    }
                    assert(fresh.accepts(node.id, parent_id));
                }
                let added = fresh.add_node(node.id, kind, parent_id, classes);
                proof {
                    assert(added.is_ok());
                    lemma_carried_kept(
                        &fresh_before,
                        &fresh,
                        &before,
                        above as int,
                        i as int,
                        kind,
                        parent_id,
                        classes,
                    );
                }
            }
            under.push(leaves);
            i += 1;
        }
        let ghost base = fresh;
        let kept = fresh.node_count();
        let mut j: usize = 0;
        while j < partial.len()
            invariant
                j <= partial.nodes().len(),
                before == *self,
                *self == *old(self),
                before.wf(),
                before.contains(*container),
                above == before.index_of(*container),
                carried(&fresh, &before, above as int, n as int),
                forall|a: int|
                    0 <= a < j ==> !stays(&before, above as int, #[trigger] partial.ids()[a]),
                fresh.wf(),
                n == before.len(),
            decreases partial.nodes().len() - j,
        {
            let id = partial.node(j).id;
            assert(partial.ids()[j as int] == id);
            proof {
                before.lemma_shape();
            }
            if fresh.find(&id).is_some() {
                assert(stays(&before, above as int, partial.ids()[j as int]));
                assert(before.collides(*container, partial));
                return Err(UIError::DuplicateNodeId);
            }
            assert(!stays(&before, above as int, id)) by {
                if stays(&before, above as int, id) {
                    assert(before.index_of(id) < n);
                    assert(fresh.contains(id));
                }
            }
            j += 1;
        }
        assert(!before.collides(*container, partial));
        if partial.len() > 0xffff_ffff - kept {
            return Err(UIError::CapacityExceeded);
        }
        proof {
            lemma_not_under_later(&before, above as int, above as int);
            assert(stays(&before, above as int, *container));
            assert(base.contains(*container));
            assert(partial.ids().take(0) =~= Seq::<UINodeId>::empty());
        }
        let mut j: usize = 0;
        while j < partial.len()
            invariant
                j <= partial.nodes().len(),
                partial.wf(),
                base.wf(),
                fresh.wf(),
                base.contains(*container),
                kept == base.len(),
                kept + partial.nodes().len() <= u32::MAX,
                forall|a: int|
                    0 <= a < partial.ids().len() ==> !base.contains(#[trigger] partial.ids()[a]),
                grafted(&fresh, &base, *container, partial, j as int),
            decreases partial.nodes().len() - j,
        {
            let node = partial.node(j);
            let target = match node.parent {
                Some(p) => p,
                None => *container,
            };
            let kind = UITree::copy_kind(&node.kind);
            let classes = UITree::copy_classes(&node.classes);
            let ghost fresh_before = fresh;
            proof {
                let ahead = partial.ids().take(j as int);
                assert(partial.ids()[j as int] == node.id);
                assert(!base.contains(node.id));
                assert(!ahead.contains(node.id)) by {
                    if ahead.contains(node.id) {
                        let w = choose|w: int| 0 <= w < ahead.len() && ahead[w] == node.id;
                        assert(partial.ids()[w] == partial.ids()[j as int]);
                    }
                }
                assert(fresh.contains(target)) by {
                    if node.parent.is_some() {
                        let a = choose|a: int|
                            0 <= a < j && partial.ids()[a] == partial.nodes()[j as int].parent.unwrap();
                        assert(ahead[a] == target);
                    }
                }
                assert(fresh.accepts(node.id, Some(target)));
            }
            let added = fresh.add_node(node.id, kind, Some(target), classes);
            proof {
                assert(added.is_ok());
                lemma_grafted_next(
                    &fresh_before,
                    &fresh,
                    &base,
                    *container,
                    partial,
                    j as int,
                    kind,
                    classes,
                );
            }
            j += 1;
        }
        proof {
            assert(partial.ids().take(j as int) =~= partial.ids());
            base.lemma_shape();
            assert forall|x: UINodeId| #[trigger]
                stays(&before, above as int, x) implies fresh.parent_of(x) == before.parent_of(x)
                && same_node(
                fresh.node_at(fresh.index_of(x)),
                before.node_at(before.index_of(x)),
            ) by {
                assert(base.contains(x));
            }
            assert forall|x: UINodeId, y: UINodeId|
                stays(&before, above as int, x) && stays(&before, above as int, y)
                    && before.index_of(x) < before.index_of(y) implies #[trigger] fresh.index_of(
                x,
            ) < #[trigger] fresh.index_of(y) by {
                assert(base.contains(x) && base.contains(y));
                assert(base.index_of(x) < base.index_of(y));
            }
            assert forall|x: UINodeId| #[trigger]
                fresh.contains(x) <==> stays(&before, above as int, x) || partial.ids().contains(
                    x,
                ) by {
                assert(base.contains(x) <==> stays(&before, above as int, x) && before.index_of(x)
                    < n);
            }
            assert forall|name: Seq<char>| #[trigger]
                fresh.records_of_class(name) == before.records_of_class(name) by {
                assert(base.records_of_class(name) == before.records_of_class(name));
            }
            let wanted = |i: int| before.descends(above as int, i);
            assert forall|k: int| 0 <= k < removed@.len() implies before.contains(
                #[trigger] removed@[k],
            ) && wanted(before.index_of(removed@[k])) by {
                assert(removed@[k] == before.node_at(gone[k]).id);
            }
            assert forall|a: int, b: int| 0 <= a < b < removed@.len() implies before.index_of(
                #[trigger] removed@[a],
            ) < before.index_of(#[trigger] removed@[b]) by {
                assert(removed@[a] == before.node_at(gone[a]).id);
                assert(removed@[b] == before.node_at(gone[b]).id);
            }
            assert forall|k: int| 0 <= k < before.len() && #[trigger] wanted(k) implies removed@.contains(
                before.node_at(k).id,
            ) by {
                assert(before.descends(above as int, k));
            }
        }
        *self = fresh;
        Ok(removed)
    }
}

} // verus!
