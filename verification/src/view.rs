//! The layout solver: per-node transforms computed in two phases from the
//! resolved styles, and the view that caches them between passes.

use vstd::prelude::*;
use vstd::multiset::Multiset;
use std::collections::{HashMap, HashSet};
use crate::layout::{lemma_transform_valid, offered, solve, transform_of};
use crate::node::UINodeId;
use crate::rtree::{ElementBounds, UINodesRTree};
use crate::style::{clamp, clamp_length, MAX_LENGTH};
use crate::tree::UITree;

verus! {

broadcast use vstd::std_specs::hash::group_hash_axioms;

/// A width and a height, in pixels.
#[derive(Debug, Clone, Copy, PartialEq, Eq, Structural)]
pub struct Extent {
    pub x: i64,
    pub y: i64,
}

impl Extent {
    /// Both components are within the range of resolved lengths.
    pub open spec fn valid(self) -> bool {
        &&& -MAX_LENGTH <= self.x <= MAX_LENGTH
        &&& -MAX_LENGTH <= self.y <= MAX_LENGTH
    }
}

/// A point: `x` to the right, `y` downward, `z` for the order of painting.
#[derive(Debug, Clone, Copy, PartialEq, Eq, Structural)]
pub struct Position {
    pub x: i64,
    pub y: i64,
    pub z: i64,
}

/// Signed distances from a node's centre to the four sides of a box.
#[derive(Debug, Clone, Copy, PartialEq, Eq, Structural)]
pub struct ContentBox {
    pub left: i64,
    pub right: i64,
    pub top: i64,
    pub bottom: i64,
}

impl ContentBox {
    /// All four distances are within the range of resolved lengths.
    pub open spec fn valid(self) -> bool {
        &&& -MAX_LENGTH <= self.left <= MAX_LENGTH
        &&& -MAX_LENGTH <= self.right <= MAX_LENGTH
        &&& -MAX_LENGTH <= self.top <= MAX_LENGTH
        &&& -MAX_LENGTH <= self.bottom <= MAX_LENGTH
    }
}

impl Default for ContentBox {
    fn default() -> (r: ContentBox)
        ensures
            r == (ContentBox { left: 0, right: 0, top: 0, bottom: 0 }),
    {
        ContentBox { left: 0, right: 0, top: 0, bottom: 0 }
    }
}

/// Where a node lies: its centre, its size, and the distances from the
/// centre to the sides of its outer box, which the margin widens, and of
/// its content box, which the padding narrows.
#[derive(Debug, Clone, Copy, PartialEq, Eq, Structural)]
pub struct Transform {
    pub position_center: Position,
    pub size: Extent,
    pub outer_size: ContentBox,
    pub content_size: ContentBox,
}

impl Transform {
    /// Every length of the transform is within the range of resolved
    /// lengths.
    pub open spec fn valid(self) -> bool {
        &&& -MAX_LENGTH <= self.position_center.x <= MAX_LENGTH
        &&& -MAX_LENGTH <= self.position_center.y <= MAX_LENGTH
        &&& self.position_center.z == 0
        &&& self.size.valid()
        &&& self.outer_size.valid()
        &&& self.content_size.valid()
    }

    /// The transform of a node of no size at the origin.
    pub open spec fn origin() -> Transform {
        Transform {
            position_center: Position { x: 0, y: 0, z: 0 },
            size: Extent { x: 0, y: 0 },
            outer_size: ContentBox { left: 0, right: 0, top: 0, bottom: 0 },
            content_size: ContentBox { left: 0, right: 0, top: 0, bottom: 0 },
        }
    }
}

impl Default for Transform {
    fn default() -> (r: Transform)
        ensures
            r == Transform::origin(),
    {
        Transform {
            position_center: Position { x: 0, y: 0, z: 0 },
            size: Extent { x: 0, y: 0 },
            outer_size: ContentBox { left: 0, right: 0, top: 0, bottom: 0 },
            content_size: ContentBox { left: 0, right: 0, top: 0, bottom: 0 },
        }
    }
}

/// The cached transform of one node, with the stamp of the layout pass
/// that last changed it.
#[derive(Debug, Clone, Copy, PartialEq, Eq, Structural)]
pub struct NodeTransform {
    pub id: UINodeId,
    pub generation: u64,
    pub transform: Transform,
}

impl NodeTransform {
    /// The transform of the node `id`, as the pass `generation` made it.
    pub fn new(id: UINodeId, generation: u64, transform: Transform) -> (r: NodeTransform)
        ensures
            r == (NodeTransform { id, generation, transform }),
    {
        NodeTransform { id, generation, transform }
    }

    /// Where the node lies.
    pub fn transform(&self) -> (r: &Transform)
        ensures
            *r == self.transform,
    {
        &self.transform
    }

    /// Replaces the transform, as the pass `generation` changed it.
    pub fn set_transform(&mut self, transform: Transform, generation: u64)
        ensures
            *final(self) == (NodeTransform { id: old(self).id, generation, transform }),
    {
        self.generation = generation;
        self.transform = transform;
    }

    /// The box of the node in the spatial index: spanned by its centre and
    /// the centre moved by the extent of its content box.
    pub open spec fn bounds(self) -> ElementBounds {
        ElementBounds::spanning(self.transform.position_center, offered(self.transform), self.id)
    }
}

/// Whether the cached transforms `cache` hold no transform of the node
/// `id` that equals `transform`: the node is new, or it has moved.
pub open spec fn differs(cache: Map<u64, NodeTransform>, id: UINodeId, transform: Transform) -> bool {
    !(cache.contains_key(id.0) && cache[id.0].transform == transform)
}

/// The entry of the node `id` after a pass with the stamp `generation`
/// that placed it at `transform`: the entry of before where the transform
/// is the same, a new one with the new stamp where it differs.
pub open spec fn entry_after(
    cache: Map<u64, NodeTransform>,
    id: UINodeId,
    transform: Transform,
    generation: u64,
) -> NodeTransform {
    if differs(cache, id, transform) {
        NodeTransform { id, generation, transform }
    } else {
        cache[id.0]
    }
}

/// What a pass hands the spatial index and keeps for the next pass.
struct Written {
    /// The boxes of the nodes that are new or have moved.
    new_bounds: Vec<ElementBounds>,
    /// The numbers of those nodes.
    changed: HashSet<u64>,
    /// The identities of all nodes of the tree.
    ids: Vec<UINodeId>,
}

/// Writes the transforms of a pass into the cache: the entry of a node
/// that is new or has moved is replaced and stamped with `generation`, the
/// entry of a node that lies where it lay is left as it is.
fn write_transforms(
    cache: &mut HashMap<u64, NodeTransform>,
    tree: &UITree,
    placed: &Vec<Transform>,
    generation: u64,
) -> (r: Written)
    requires
        tree.wf(),
        placed@.len() == tree.len(),
        forall|i: int| 0 <= i < placed@.len() ==> (#[trigger] placed@[i]).valid(),
    ensures
        forall|k: u64|
            (#[trigger] final(cache)@.contains_key(k)) <==> old(cache)@.contains_key(k)
                || tree.contains(UINodeId(k)),
        forall|k: u64|
            old(cache)@.contains_key(k) && !tree.contains(UINodeId(k))
                ==> #[trigger] final(cache)@[k] == old(cache)@[k],
        forall|id: UINodeId| #[trigger]
            tree.contains(id) ==> final(cache)@[id.0] == entry_after(
                old(cache)@,
                id,
                placed@[tree.index_of(id)],
                generation,
            ),
        r.new_bounds@.no_duplicates(),
        forall|j: int| 0 <= j < r.new_bounds@.len() ==> (#[trigger] r.new_bounds@[j]).wf(),
        forall|e: ElementBounds|
            #![trigger r.new_bounds@.contains(e)]
            r.new_bounds@.contains(e) <==> tree.contains(e.id) && differs(
                old(cache)@,
                e.id,
                placed@[tree.index_of(e.id)],
            ) && e == final(cache)@[e.id.0].bounds(),
        forall|k: u64|
            #![trigger r.changed@.contains(k)]
            r.changed@.contains(k) <==> tree.contains(UINodeId(k)) && differs(
                old(cache)@,
                UINodeId(k),
                placed@[tree.index_of(UINodeId(k))],
            ),
        r.ids@ == tree.id_seq(),
{
    let ghost before = cache@;
    let mut new_bounds: Vec<ElementBounds> = Vec::new();
    let mut changed: HashSet<u64> = HashSet::new();
    let ids = tree.ids();
    let n = tree.node_count();
    proof {
        tree.lemma_shape();
    }
    let mut i: usize = 0;
    while i < n
        invariant
            tree.wf(),
            n == tree.len(),
            i <= n,
            placed@.len() == n,
            forall|j: int| 0 <= j < placed@.len() ==> (#[trigger] placed@[j]).valid(),
            forall|id: UINodeId| #[trigger]
                tree.contains(id) ==> 0 <= tree.index_of(id) < tree.len() && tree.node_at(
                    tree.index_of(id),
                ).id == id,
            forall|j: int|
                0 <= j < tree.len() ==> tree.contains((#[trigger] tree.node_at(j)).id)
                    && tree.index_of(tree.node_at(j).id) == j,
            forall|k: u64|
                (#[trigger] cache@.contains_key(k)) <==> before.contains_key(k) || (tree.contains(
                    UINodeId(k),
                ) && tree.index_of(UINodeId(k)) < i),
            forall|k: u64|
                before.contains_key(k) && !(tree.contains(UINodeId(k)) && tree.index_of(UINodeId(k))
                    < i) ==> #[trigger] cache@[k] == before[k],
            forall|id: UINodeId|
                #![trigger tree.contains(id)]
                tree.contains(id) && tree.index_of(id) < i ==> cache@[id.0] == entry_after(
                    before,
                    id,
                    placed@[tree.index_of(id)],
                    generation,
                ),
            new_bounds@.no_duplicates(),
            forall|j: int| 0 <= j < new_bounds@.len() ==> (#[trigger] new_bounds@[j]).wf(),
            forall|e: ElementBounds|
                #![trigger new_bounds@.contains(e)]
                new_bounds@.contains(e) <==> tree.contains(e.id) && tree.index_of(e.id) < i
                    && differs(before, e.id, placed@[tree.index_of(e.id)]) && e
                    == cache@[e.id.0].bounds(),
            forall|k: u64|
                #![trigger changed@.contains(k)]
                changed@.contains(k) <==> tree.contains(UINodeId(k)) && tree.index_of(UINodeId(k))
                    < i && differs(before, UINodeId(k), placed@[tree.index_of(UINodeId(k))]),
        decreases n - i,
    {
        let id = tree.node_by_index(i).id;
        let transform = placed[i];
        assert(tree.contains(id) && tree.index_of(id) == i);
        let moved = match cache.get(&id.0) {
            Some(entry) => entry.transform != transform,
            None => true,
        };
        let ghost cache_before = cache@;
        let ghost bounds_before = new_bounds@;
        let ghost changed_before = changed@;
        assert(cache_before.contains_key(id.0) == before.contains_key(id.0));
        assert(before.contains_key(id.0) ==> cache_before[id.0] == before[id.0]);
        assert(moved == differs(before, id, transform));
        if moved {
            let entry = NodeTransform::new(id, generation, transform);
            cache.insert(id.0, entry);
            let space = Extent {
                x: clamp(transform.content_size.left + transform.content_size.right),
                y: clamp(transform.content_size.top + transform.content_size.bottom),
            };
            let bounds = ElementBounds::new(transform.position_center, space, id);
            assert(bounds == entry.bounds());
            new_bounds.push(bounds);
            changed.insert(id.0);
            proof {
                assert forall|a: int, b: int|
                    0 <= a < new_bounds@.len() && 0 <= b < new_bounds@.len() && a
                        != b implies new_bounds@[a] != new_bounds@[b] by {
                    let last = new_bounds@.len() - 1;
                    if a < last && b < last {
                        assert(bounds_before[a] != bounds_before[b]);
                    } else {
                        let other = if a < last {
                            a
                        } else {
                            b
                        };
                        assert(bounds_before.contains(bounds_before[other]));
                        assert(tree.index_of(bounds_before[other].id) < i);
                    }
                }
                assert forall|e: ElementBounds|
                    #![trigger new_bounds@.contains(e)]
                    new_bounds@.contains(e) <==> tree.contains(e.id) && tree.index_of(e.id) < i + 1
                        && differs(before, e.id, placed@[tree.index_of(e.id)]) && e
                        == cache@[e.id.0].bounds() by {
                    if new_bounds@.contains(e) {
                        let w = choose|w: int| 0 <= w < new_bounds@.len() && new_bounds@[w] == e;
                        if w < bounds_before.len() {
                            assert(bounds_before[w] == e);
                            assert(bounds_before.contains(e));
                            assert(e.id != id);
                        }
                    }
                    if tree.contains(e.id) && tree.index_of(e.id) < i + 1 && differs(
                        before,
                        e.id,
                        placed@[tree.index_of(e.id)],
                    ) && e == cache@[e.id.0].bounds() {
                        if e.id == id {
                            assert(new_bounds@[new_bounds@.len() - 1] == e);
                        } else {
                            assert(tree.index_of(e.id) != i);
                            assert(bounds_before.contains(e));
                            let w = choose|w: int|
                                0 <= w < bounds_before.len() && bounds_before[w] == e;
                            assert(new_bounds@[w] == e);
                        }
                    }
                }
            }
        } else {
            proof {
                assert forall|e: ElementBounds|
                    #![trigger new_bounds@.contains(e)]
                    new_bounds@.contains(e) <==> tree.contains(e.id) && tree.index_of(e.id) < i + 1
                        && differs(before, e.id, placed@[tree.index_of(e.id)]) && e
                        == cache@[e.id.0].bounds() by {
                    if tree.contains(e.id) && tree.index_of(e.id) == i {
                        assert(e.id == id);
                    }
                }
            }
        }
        proof {
            assert forall|k: u64|
                (#[trigger] cache@.contains_key(k)) <==> before.contains_key(k) || (tree.contains(
                    UINodeId(k),
                ) && tree.index_of(UINodeId(k)) < i + 1) by {
                if tree.contains(UINodeId(k)) && tree.index_of(UINodeId(k)) == i {
                    assert(UINodeId(k) == id);
                }
                assert(cache_before.contains_key(k) <==> before.contains_key(k) || (tree.contains(
                    UINodeId(k),
                ) && tree.index_of(UINodeId(k)) < i));
            }
            assert forall|k: u64|
                before.contains_key(k) && !(tree.contains(UINodeId(k)) && tree.index_of(UINodeId(k))
                    < i + 1) implies #[trigger] cache@[k] == before[k] by {
                assert(k != id.0) by {
                    if k == id.0 {
                        assert(UINodeId(k) == id);
                    }
                }
                assert(cache_before[k] == before[k]);
            }
            assert forall|x: UINodeId|
                #![trigger tree.contains(x)]
                tree.contains(x) && tree.index_of(x) < i + 1 implies cache@[x.0] == entry_after(
                before,
                x,
                placed@[tree.index_of(x)],
                generation,
            ) by {
                if tree.index_of(x) == i {
                    assert(x == id);
                } else {
                    assert(x.0 != id.0);
                    assert(cache_before[x.0] == entry_after(
                        before,
                        x,
                        placed@[tree.index_of(x)],
                        generation,
                    ));
                }
            }
            assert forall|k: u64|
                #![trigger changed@.contains(k)]
                changed@.contains(k) <==> tree.contains(UINodeId(k)) && tree.index_of(UINodeId(k))
                    < i + 1 && differs(
                    before,
                    UINodeId(k),
                    placed@[tree.index_of(UINodeId(k))],
                ) by {
                if tree.contains(UINodeId(k)) && tree.index_of(UINodeId(k)) == i {
                    assert(UINodeId(k) == id);
                }
                assert(changed_before.contains(k) <==> tree.contains(UINodeId(k)) && tree.index_of(
                    UINodeId(k),
                ) < i && differs(before, UINodeId(k), placed@[tree.index_of(UINodeId(k))]));
            }
        }
        i += 1;
    }
    Written { new_bounds, changed, ids }
}

/// Takes out of the cache the transforms of the nodes of `known` that the
/// tree no longer holds, and notes their numbers in `affected`.
fn purge(
    cache: &mut HashMap<u64, NodeTransform>,
    known: &Vec<UINodeId>,
    tree: &UITree,
    affected: &mut HashSet<u64>,
)
    requires
        tree.wf(),
    ensures
        forall|k: u64|
            (#[trigger] final(cache)@.contains_key(k)) <==> old(cache)@.contains_key(k) && !(
            known@.contains(UINodeId(k)) && !tree.contains(UINodeId(k))),
        forall|k: u64| #[trigger]
            final(cache)@.contains_key(k) ==> final(cache)@[k] == old(cache)@[k],
        forall|k: u64|
            (#[trigger] final(affected)@.contains(k)) <==> old(affected)@.contains(k) || (
            known@.contains(UINodeId(k)) && !tree.contains(UINodeId(k))),
{
    let mut j: usize = 0;
    while j < known.len()
        invariant
            tree.wf(),
            j <= known@.len(),
            forall|k: u64|
                (#[trigger] cache@.contains_key(k)) <==> old(cache)@.contains_key(k) && !(
                known@.take(j as int).contains(UINodeId(k)) && !tree.contains(UINodeId(k))),
            forall|k: u64| #[trigger] cache@.contains_key(k) ==> cache@[k] == old(cache)@[k],
            forall|k: u64|
                (#[trigger] affected@.contains(k)) <==> old(affected)@.contains(k) || (
                known@.take(j as int).contains(UINodeId(k)) && !tree.contains(UINodeId(k))),
        decreases known@.len() - j,
    {
        let id = known[j];
        let ghost front = known@.take(j as int);
        let ghost next = known@.take(j + 1);
        proof {
            assert(next =~= front.push(id));
            assert forall|x: UINodeId| next.contains(x) <==> front.contains(x) || x == id by {
                if next.contains(x) {
                    let w = choose|w: int| 0 <= w < next.len() && next[w] == x;
                    if w < front.len() {
                        assert(front[w] == x);
                    }
                }
                if front.contains(x) {
                    let w = choose|w: int| 0 <= w < front.len() && front[w] == x;
                    assert(next[w] == x);
                }
                if x == id {
                    assert(next[next.len() - 1] == x);
                }
            }
        }
        let ghost cache_before = cache@;
        let ghost affected_before = affected@;
        if tree.find(&id).is_none() {
            cache.remove(&id.0);
            affected.insert(id.0);
        }
        proof {
            assert forall|k: u64|
                (#[trigger] cache@.contains_key(k)) <==> old(cache)@.contains_key(k) && !(
                next.contains(UINodeId(k)) && !tree.contains(UINodeId(k))) by {
                assert(cache_before.contains_key(k) <==> old(cache)@.contains_key(k) && !(
                front.contains(UINodeId(k)) && !tree.contains(UINodeId(k))));
                assert(next.contains(UINodeId(k)) <==> front.contains(UINodeId(k)) || UINodeId(k)
                    == id);
                if k == id.0 {
                    assert(UINodeId(k) == id);
                }
            }
            assert forall|k: u64| #[trigger] cache@.contains_key(k) implies cache@[k] == old(
                cache,
            )@[k] by {
                assert(cache_before.contains_key(k));
            }
            assert forall|k: u64|
                (#[trigger] affected@.contains(k)) <==> old(affected)@.contains(k) || (
                next.contains(UINodeId(k)) && !tree.contains(UINodeId(k))) by {
                assert(affected_before.contains(k) <==> old(affected)@.contains(k) || (
                front.contains(UINodeId(k)) && !tree.contains(UINodeId(k))));
                assert(next.contains(UINodeId(k)) <==> front.contains(UINodeId(k)) || UINodeId(k)
                    == id);
                if k == id.0 {
                    assert(UINodeId(k) == id);
                }
            }
        }
        j += 1;
    }
    assert(known@.take(j as int) =~= known@);
}

/// A view of a tree in a window: the cached transforms of the tree's
/// nodes and the spatial index over their boxes.
pub struct UIView {
    window_size: Extent,
    transform: HashMap<u64, NodeTransform>,
    node_ids: Vec<UINodeId>,
    rtree: UINodesRTree,
    last_generation: u64,
}

impl UIView {
    /// The size of the window.
    pub closed spec fn window(&self) -> Extent {
        self.window_size
    }

    /// The stamp of the last layout pass.
    pub closed spec fn generation(&self) -> u64 {
        self.last_generation
    }

    /// The cached transforms, by the numbers of their nodes.
    pub closed spec fn cache(&self) -> Map<u64, NodeTransform> {
        self.transform@
    }

    /// The boxes in the spatial index.
    pub closed spec fn index(&self) -> Multiset<ElementBounds> {
        self.rtree.contents()
    }

    /// Whether the view holds a transform of the node `id`.
    pub open spec fn has_transform(&self, id: UINodeId) -> bool {
        self.cache().contains_key(id.0)
    }

    /// The cached transform of the node `id`.
    pub open spec fn entry(&self, id: UINodeId) -> NodeTransform {
        self.cache()[id.0]
    }

    /// The view's invariant: the window's size is within the range of
    /// resolved lengths; every cached transform is filed under its node, is
    /// within that range and bears a stamp that is not ahead of the last
    /// pass; and the spatial index holds the box of every cached transform
    /// once, and nothing else.
    pub closed spec fn wf(&self) -> bool {
        &&& self.window_size.valid()
        &&& self.rtree.wf()
        &&& forall|k: u64| #[trigger]
            self.transform@.contains_key(k) ==> {
                &&& self.transform@[k].id.0 == k
                &&& self.transform@[k].transform.valid()
                &&& self.transform@[k].generation <= self.last_generation
            }
        &&& forall|j: int|
            0 <= j < self.node_ids@.len() ==> self.transform@.contains_key(
                (#[trigger] self.node_ids@[j]).0,
            )
        &&& forall|k: u64| #[trigger]
            self.transform@.contains_key(k) ==> self.node_ids@.contains(UINodeId(k))
        &&& forall|e: ElementBounds|
            #![trigger self.rtree.contents().count(e)]
            self.rtree.contents().count(e) == if self.transform@.contains_key(e.id.0) && e
                == self.transform@[e.id.0].bounds() {
                1nat
            } else {
                0nat
            }
    }

    /// What the invariant says of the cache and the index.
    pub proof fn lemma_wf(&self)
        requires
            self.wf(),
        ensures
            self.window().valid(),
            forall|id: UINodeId| #[trigger]
                self.has_transform(id) ==> self.entry(id).id == id && self.entry(
                    id,
                ).transform.valid() && self.entry(id).generation <= self.generation(),
            forall|e: ElementBounds|
                #![trigger self.index().count(e)]
                self.index().count(e) == if self.has_transform(e.id) && e == self.entry(
                    e.id,
                ).bounds() {
                    1nat
                } else {
                    0nat
                },
    {
        assert forall|id: UINodeId| #[trigger] self.has_transform(id) implies self.entry(id).id
            == id && self.entry(id).transform.valid() && self.entry(id).generation
            <= self.generation() by {
            assert(self.transform@.contains_key(id.0));
        }
    }

    /// Whether this view is what a layout pass over `tree` makes of the
    /// view `before`: the window is the same, the stamp is the next one,
    /// exactly the nodes of the tree have a transform, and each has the
    /// transform the solver gives it, with the stamp of this pass if the
    /// node is new or has moved and with its earlier stamp if it has not.
    pub open spec fn follows(&self, before: &UIView, tree: &UITree) -> bool {
        &&& self.window() == before.window()
        &&& self.generation() == before.generation() + 1
        &&& forall|id: UINodeId| #[trigger] self.has_transform(id) <==> tree.contains(id)
        &&& forall|id: UINodeId| #[trigger]
            tree.contains(id) ==> self.entry(id) == entry_after(
                before.cache(),
                id,
                transform_of(tree, self.window(), tree.index_of(id)),
                self.generation(),
            )
    }

    /// A view without transforms for a window of the given size. A size
    /// beyond the range of resolved lengths counts as the bound.
    pub fn new(size: Extent) -> (r: UIView)
        ensures
            r.wf(),
            r.window() == (Extent { x: clamp_length(size.x as int) as i64, y: clamp_length(
                size.y as int,
            ) as i64 }),
            r.generation() == 0,
            forall|id: UINodeId| !r.has_transform(id),
            r.index() == Multiset::<ElementBounds>::empty(),
    {
        broadcast use vstd::multiset::group_multiset_axioms;

        UIView {
            window_size: Extent { x: clamp(size.x), y: clamp(size.y) },
            transform: HashMap::new(),
            node_ids: Vec::new(),
            rtree: UINodesRTree::new(),
            last_generation: 0,
        }
    }

    /// The cached transform of the node `id`, if there is one.
    pub fn get_transform(&self, id: &UINodeId) -> (r: Option<NodeTransform>)
        ensures
            r.is_some() == self.has_transform(*id),
            r.is_some() ==> r.unwrap() == self.entry(*id),
    {
        match self.transform.get(&id.0) {
            Some(entry) => Some(*entry),
            None => None,
        }
    }

    /// The stamp of the last layout pass.
    pub fn last_generation(&self) -> (r: u64)
        ensures
            r == self.generation(),
    {
        self.last_generation
    }

    /// The size of the window.
    pub fn window_size(&self) -> (r: Extent)
        ensures
            r == self.window(),
    {
        self.window_size
    }

    /// The boxes in the spatial index, in no particular order.
    pub fn indexed_bounds(&self) -> (r: Vec<ElementBounds>)
        ensures
            r@.to_multiset() == self.index(),
    {
        self.rtree.elements()
    }

    /// Lays the tree out in the window: resolves the styles that are out
    /// of date, solves the layout, stamps the transforms that are new or
    /// have changed with the next generation, drops the transforms of
    /// nodes that the tree no longer holds, and brings the spatial index
    /// up to date for exactly the nodes that were dropped or have changed.
    pub fn recalculate_transform(&mut self, tree: &mut UITree)
        requires
            old(self).wf(),
            old(tree).wf(),
            old(self).generation() < u64::MAX,
        ensures
            final(tree).wf(),
            final(tree).same_nodes(old(tree)),
            final(tree).class_names() == old(tree).class_names(),
            final(tree).class_list() == old(tree).class_list(),
            forall|i: int|
                0 <= i < final(tree).len() ==> !final(tree).is_deprecated(i) && (
                #[trigger] final(tree).node_at(i)).style == old(tree).resolved_style(i),
            forall|i: int|
                0 <= i < old(tree).len() && !(#[trigger] old(tree).is_deprecated(i))
                    ==> final(tree).node_at(i).style == old(tree).node_at(i).style,
            final(self).wf(),
            final(self).follows(old(self), final(tree)),
            final(self).generation() > old(self).generation(),
            forall|id: UINodeId|
                !final(tree).contains(id) ==> !(#[trigger] final(self).has_transform(id)),
            forall|id: UINodeId|
                final(tree).contains(id) ==> (#[trigger] final(self).entry(id)).id == id
                    && final(self).entry(id).generation <= final(self).generation(),
            forall|id: UINodeId|
                final(tree).contains(id) && !old(self).has_transform(id) ==> (
                #[trigger] final(self).entry(id)).generation == final(self).generation(),
            forall|id: UINodeId|
                final(tree).contains(id) ==> (#[trigger] final(self).entry(id)).transform
                    == transform_of(final(tree), final(self).window(), final(tree).index_of(id)),
            forall|e: ElementBounds|
                #![trigger final(self).index().count(e)]
                final(self).index().count(e) == if final(self).has_transform(e.id)
                    && e == final(self).entry(e.id).bounds() {
                    1nat
                } else {
                    0nat
                },
    {
        broadcast use vstd::multiset::group_multiset_axioms;

        if tree.need_style_recalculation() {
            tree.recalculate_styles();
        } else {
            proof {
                tree.lemma_styles_fresh();
            }
        }
        self.last_generation = self.last_generation + 1;
        let generation = self.last_generation;
        let window = self.window_size;
        let placed = solve(tree, window);
        proof {
            assert forall|i: int| 0 <= i < placed@.len() implies (#[trigger] placed@[i]).valid() by {
                lemma_transform_valid(tree, window, i);
            }
            tree.lemma_shape();
        }
        let ghost cache0 = self.transform@;
        let ghost held = self.rtree.contents();
        let ghost known = self.node_ids@;
        let written = write_transforms(&mut self.transform, tree, &placed, generation);
        let ghost cache1 = self.transform@;
        let Written { new_bounds, changed, ids } = written;
        let ghost changed_set = changed@;
        let mut affected = changed;
        purge(&mut self.transform, &self.node_ids, tree, &mut affected);
        let ghost cache2 = self.transform@;
        self.node_ids = ids;
        self.rtree.update(&affected, &new_bounds);
        proof {
            let t = *tree;
            assert forall|k: u64| #[trigger] cache2.contains_key(k) <==> t.contains(UINodeId(k)) by {
                if cache0.contains_key(k) {
                    assert(known.contains(UINodeId(k)));
                }
            }
            assert forall|id: UINodeId| #[trigger] t.contains(id) implies cache2[id.0]
                == entry_after(cache0, id, transform_of(tree, window, t.index_of(id)), generation) by {
                assert(UINodeId(id.0) == id);
                assert(cache2.contains_key(id.0));
                assert(cache1[id.0] == entry_after(
                    cache0,
                    id,
                    placed@[t.index_of(id)],
                    generation,
                ));
            }
            assert forall|k: u64| #[trigger] cache2.contains_key(k) implies ({
                &&& cache2[k].id.0 == k
                &&& cache2[k].transform.valid()
                &&& cache2[k].generation <= generation
            }) by {
                let id = UINodeId(k);
                assert(t.contains(id));
                assert(cache2[k] == entry_after(
                    cache0,
                    id,
                    transform_of(tree, window, t.index_of(id)),
                    generation,
                ));
                lemma_transform_valid(tree, window, t.index_of(id));
            }
            assert forall|j: int| 0 <= j < self.node_ids@.len() implies cache2.contains_key(
                (#[trigger] self.node_ids@[j]).0,
            ) by {
                assert(self.node_ids@[j] == t.node_at(j).id);
                assert(t.contains(t.node_at(j).id));
                assert(UINodeId(self.node_ids@[j].0) == self.node_ids@[j]);
            }
            assert forall|k: u64| #[trigger] cache2.contains_key(k) implies self.node_ids@.contains(
                UINodeId(k),
            ) by {
                let id = UINodeId(k);
                assert(t.contains(id));
                assert(self.node_ids@[t.index_of(id)] == id);
            }
            new_bounds@.lemma_multiset_has_no_duplicates();
            new_bounds@.to_multiset_ensures();
            assert forall|e: ElementBounds|
                #![trigger self.rtree.contents().count(e)]
                self.rtree.contents().count(e) == if cache2.contains_key(e.id.0) && e
                    == cache2[e.id.0].bounds() {
                    1nat
                } else {
                    0nat
                } by {
                let k = e.id.0;
                let id = e.id;
                assert(UINodeId(k) == id);
                let kept = held.filter(|x: ElementBounds| !affected@.contains(x.id.0));
                assert(self.rtree.contents().count(e) == kept.count(e) + new_bounds@.to_multiset().count(
                    e,
                ));
                assert(held.count(e) == if cache0.contains_key(k) && e == cache0[k].bounds() {
                    1nat
                } else {
                    0nat
                });
                assert(new_bounds@.contains(e) <==> t.contains(id) && differs(
                    cache0,
                    id,
                    placed@[t.index_of(id)],
                ) && e == cache1[k].bounds());
                assert(changed_set.contains(k) <==> t.contains(id) && differs(
                    cache0,
                    id,
                    placed@[t.index_of(id)],
                ));
                assert(affected@.contains(k) <==> changed_set.contains(k) || (known.contains(id)
                    && !t.contains(id)));
                if new_bounds@.contains(e) {
                    assert(new_bounds@.to_multiset().contains(e));
                    assert(new_bounds@.to_multiset().count(e) == 1);
                } else {
                    assert(new_bounds@.to_multiset().count(e) == 0);
                }
                if t.contains(id) {
                    assert(cache2.contains_key(k));
                    assert(cache2[k] == cache1[k]);
                    assert(cache1[k] == entry_after(
                        cache0,
                        id,
                        placed@[t.index_of(id)],
                        generation,
                    ));
                } else {
                    if cache0.contains_key(k) {
                        assert(known.contains(id));
                    }
                }
            }
        }
    }

    /// Sets the size of the window and lays the tree out anew.
    pub fn resize(&mut self, size: Extent, tree: &mut UITree)
        requires
            old(self).wf(),
            old(tree).wf(),
            old(self).generation() < u64::MAX,
        ensures
            final(tree).wf(),
            final(tree).same_nodes(old(tree)),
            final(self).wf(),
            final(self).window() == (Extent { x: clamp_length(size.x as int) as i64, y: clamp_length(
                size.y as int,
            ) as i64 }),
            final(self).generation() == old(self).generation() + 1,
            forall|id: UINodeId| #[trigger] final(self).has_transform(id) <==> final(tree).contains(id),
            forall|id: UINodeId| #[trigger]
                final(tree).contains(id) ==> final(self).entry(id) == entry_after(
                    old(self).cache(),
                    id,
                    transform_of(final(tree), final(self).window(), final(tree).index_of(id)),
                    final(self).generation(),
                ),
    {
        self.window_size = Extent { x: clamp(size.x), y: clamp(size.y) };
        self.recalculate_transform(tree);
    }
}

/// A node that the tree no longer holds has no transform and no box after
/// the pass, and the box of every other node that the tree still holds and
/// that lies where it lay is in the index as often as before.
pub proof fn lemma_removal_takes_its_own_box_only(
    before: &UIView,
    tree: &UITree,
    after: &UIView,
    gone: UINodeId,
)
    requires
        before.wf(),
        after.wf(),
        after.follows(before, tree),
        before.has_transform(gone),
        !tree.contains(gone),
    ensures
        !after.has_transform(gone),
        forall|e: ElementBounds| e.id == gone ==> after.index().count(e) == 0,
        forall|e: ElementBounds|
            tree.contains(e.id) && !differs(
                before.cache(),
                e.id,
                transform_of(tree, after.window(), tree.index_of(e.id)),
            ) ==> #[trigger] after.index().count(e) == before.index().count(e),
{
    before.lemma_wf();
    after.lemma_wf();
    assert forall|e: ElementBounds| e.id == gone implies after.index().count(e) == 0 by {
        assert(!after.has_transform(e.id));
    }
    assert forall|e: ElementBounds|
        tree.contains(e.id) && !differs(
            before.cache(),
            e.id,
            transform_of(tree, after.window(), tree.index_of(e.id)),
        ) implies #[trigger] after.index().count(e) == before.index().count(e) by {
        assert(after.has_transform(e.id));
        assert(after.entry(e.id) == before.entry(e.id));
    }
}

/// A node that had no transform before a pass over a tree that holds it
/// bears the stamp of that pass.
pub proof fn lemma_new_node_is_stamped(before: &UIView, tree: &UITree, after: &UIView, id: UINodeId)
    requires
        after.follows(before, tree),
        !before.has_transform(id),
        tree.contains(id),
    ensures
        after.has_transform(id),
        after.entry(id).generation == after.generation(),
{
}

/// A node that is taken out of the tree and put back as it was is not
/// given its old transform back. The pass without it drops its transform
/// and its box. The pass that finds it again places it anew, stamps the
/// transform with the stamp of that pass, which is larger than the stamp it
/// bore, and puts its new box into the index once, and no other box of it.
pub proof fn lemma_removed_and_added_again(
    first: &UIView,
    without: &UITree,
    second: &UIView,
    with: &UITree,
    third: &UIView,
    id: UINodeId,
)
    requires
        first.wf(),
        second.wf(),
        third.wf(),
        second.follows(first, without),
        third.follows(second, with),
        first.has_transform(id),
        !without.contains(id),
        with.contains(id),
    ensures
        !second.has_transform(id),
        forall|e: ElementBounds| e.id == id ==> second.index().count(e) == 0,
        third.has_transform(id),
        third.entry(id).id == id,
        third.entry(id).transform == transform_of(with, third.window(), with.index_of(id)),
        third.entry(id).generation == third.generation(),
        third.generation() == first.generation() + 2,
        third.entry(id).generation > first.entry(id).generation,
        third.index().count(third.entry(id).bounds()) == 1,
        forall|e: ElementBounds|
            e.id == id && e != third.entry(id).bounds() ==> third.index().count(e) == 0,
{
    first.lemma_wf();
    second.lemma_wf();
    third.lemma_wf();
    lemma_new_node_is_stamped(second, with, third, id);
    assert forall|e: ElementBounds| e.id == id implies second.index().count(e) == 0 by {
        assert(!second.has_transform(e.id));
    }
    assert(third.entry(id).bounds().id == id);
}

/// The stamp grows with every pass, and the transforms that a pass
/// changes all bear its stamp.
pub proof fn lemma_stamps(before: &UIView, tree: &UITree, after: &UIView)
    requires
        before.wf(),
        after.follows(before, tree),
    ensures
        after.generation() > before.generation(),
        forall|id: UINodeId|
            tree.contains(id) && differs(
                before.cache(),
                id,
                transform_of(tree, after.window(), tree.index_of(id)),
            ) ==> (#[trigger] after.entry(id)).generation == after.generation(),
        forall|id: UINodeId|
            tree.contains(id) && !differs(
                before.cache(),
                id,
                transform_of(tree, after.window(), tree.index_of(id)),
            ) ==> (#[trigger] after.entry(id)).generation < after.generation(),
{
    before.lemma_wf();
    assert forall|id: UINodeId|
        tree.contains(id) && !differs(
            before.cache(),
            id,
            transform_of(tree, after.window(), tree.index_of(id)),
        ) implies (#[trigger] after.entry(id)).generation < after.generation() by {
        assert(before.has_transform(id));
    }
}

} // verus!
