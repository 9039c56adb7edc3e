//! The spatial index: one axis-aligned box per node, kept in an R-tree.

use vstd::prelude::*;
use vstd::multiset::Multiset;
use std::collections::HashSet;
use crate::node::UINodeId;
use crate::style::MAX_LENGTH;
use crate::view::{Extent, Position};

verus! {

broadcast use vstd::std_specs::hash::group_hash_axioms;

/// The largest magnitude of an `x` or `y` coordinate of a box in the index.
pub const MAX_COORDINATE: i64 = 2_199_023_255_552;

/// The largest magnitude of a `z` coordinate of a box in the index. Depth
/// only orders the painting, so it has a much smaller range than the plane.
pub const MAX_DEPTH: i64 = 2_147_483_648;

/// The smaller of two coordinates.
fn lesser(a: i64, b: i64) -> (r: i64)
    ensures
        r == if a <= b {
            a
        } else {
            b
        },
{
    if a <= b {
        a
    } else {
        b
    }
}

/// The larger of two coordinates.
fn greater(a: i64, b: i64) -> (r: i64)
    ensures
        r == if a <= b {
            b
        } else {
            a
        },
{
    if a <= b {
        b
    } else {
        a
    }
}

/// A coordinate of the index as a number of the width the R-tree computes
/// in.
fn widen(a: i64) -> (r: i128)
    ensures
        r == a,
{
    a as i128
}

/// A number of the R-tree as a coordinate; beyond the range of coordinates
/// it saturates.
fn narrow(a: i128) -> (r: i64)
    ensures
        -MAX_COORDINATE <= a <= MAX_COORDINATE ==> r == a,
{
    if a < -(MAX_COORDINATE as i128) {
        -MAX_COORDINATE
    } else if a > MAX_COORDINATE as i128 {
        MAX_COORDINATE
    } else {
        a as i64
    }
}

/// The box of one node in the index, by its two corners.
#[derive(Debug, Clone, Copy, PartialEq, Eq, Structural)]
pub struct ElementBounds {
    pub lower: Position,
    pub upper: Position,
    pub id: UINodeId,
}

impl ElementBounds {
    /// The lower corner is nowhere beyond the upper one, the coordinates
    /// in the plane are within `MAX_COORDINATE`, and the depths within
    /// `MAX_DEPTH`.
    pub open spec fn wf(self) -> bool {
        &&& -MAX_COORDINATE <= self.lower.x <= self.upper.x <= MAX_COORDINATE
        &&& -MAX_COORDINATE <= self.lower.y <= self.upper.y <= MAX_COORDINATE
        &&& -MAX_DEPTH <= self.lower.z <= self.upper.z <= MAX_DEPTH
    }

    /// The box that the points `position` and `position` moved by `size`
    /// span.
    pub open spec fn spanning(position: Position, size: Extent, id: UINodeId) -> ElementBounds {
        ElementBounds {
            lower: Position {
                x: if size.x >= 0 {
                    position.x
                } else {
                    (position.x + size.x) as i64
                },
                y: if size.y >= 0 {
                    position.y
                } else {
                    (position.y + size.y) as i64
                },
                z: position.z,
            },
            upper: Position {
                x: if size.x >= 0 {
                    (position.x + size.x) as i64
                } else {
                    position.x
                },
                y: if size.y >= 0 {
                    (position.y + size.y) as i64
                } else {
                    position.y
                },
                z: position.z,
            },
            id,
        }
    }

    /// The box of the node `id` that the points `position` and `position`
    /// moved by `size` span.
    pub fn new(position: Position, size: Extent, id: UINodeId) -> (r: ElementBounds)
        requires
            -MAX_LENGTH <= position.x <= MAX_LENGTH,
            -MAX_LENGTH <= position.y <= MAX_LENGTH,
            -MAX_DEPTH <= position.z <= MAX_DEPTH,
            size.valid(),
        ensures
            r == ElementBounds::spanning(position, size, id),
            r.wf(),
    {
        let far_x = position.x + size.x;
        let far_y = position.y + size.y;
        ElementBounds {
            lower: Position {
                x: lesser(position.x, far_x),
                y: lesser(position.y, far_y),
                z: position.z,
            },
            upper: Position {
                x: greater(position.x, far_x),
                y: greater(position.y, far_y),
                z: position.z,
            },
            id,
        }
    }

    /// The node the box belongs to.
    pub fn id(&self) -> (r: &UINodeId)
        ensures
            *r == self.id,
    {
        &self.id
    }

    /// The lower corner as the R-tree takes it.
    fn lower_corner(&self) -> (r: [i128; 3])
        ensures
            r@ == seq![self.lower.x as i128, self.lower.y as i128, self.lower.z as i128],
    {
        let r = [widen(self.lower.x), widen(self.lower.y), widen(self.lower.z)];
        assert(r@ =~= seq![self.lower.x as i128, self.lower.y as i128, self.lower.z as i128]);
        r
    }

    /// The upper corner as the R-tree takes it.
    fn upper_corner(&self) -> (r: [i128; 3])
        ensures
            r@ == seq![self.upper.x as i128, self.upper.y as i128, self.upper.z as i128],
    {
        let r = [widen(self.upper.x), widen(self.upper.y), widen(self.upper.z)];
        assert(r@ =~= seq![self.upper.x as i128, self.upper.y as i128, self.upper.z as i128]);
        r
    }

    /// The box with the given corners, as the R-tree hands them out.
    fn from_corners(id: u64, lower: [i128; 3], upper: [i128; 3]) -> (r: ElementBounds)
        ensures
            r.id == UINodeId(id),
    {
        ElementBounds {
            lower: Position { x: narrow(lower[0]), y: narrow(lower[1]), z: narrow(lower[2]) },
            upper: Position { x: narrow(upper[0]), y: narrow(upper[1]), z: narrow(upper[2]) },
            id: UINodeId(id),
        }
    }
}

/// An R-tree of boxes with the numbers of their nodes.
#[verifier::external_body]
pub struct BoxIndex {
    tree: rstar::RTree<
        rstar::primitives::GeomWithData<rstar::primitives::Rectangle<[i128; 3]>, u64>,
    >,
}

/// The boxes that an index holds, each as often as it was inserted and not
/// removed since.
pub uninterp spec fn index_contents(index: BoxIndex) -> Multiset<ElementBounds>;

/// `RTree::new`: an index without boxes.
#[verifier::external_body]
fn index_new() -> (index: BoxIndex)
    ensures
        index_contents(index) == Multiset::<ElementBounds>::empty(),
{
    BoxIndex { tree: rstar::RTree::new() }
}

/// `RTree::insert`: the index holds the box once more.
///
/// While it chooses where to put a box, the R-tree computes in `i128` with
/// the extents of boxes and of the envelopes around several boxes: it
/// multiplies the three extents of an envelope to a volume, adds the
/// volumes of the envelopes of the children of one node, of which it keeps
/// at most seven, and adds the squares of the three distances between two
/// centres. With every box of the index and the new one well formed, an
/// extent is at most 2^42 in the plane and 2^32 in depth, a volume at most
/// 2^116, a sum of squares below 2^86, and a sum of volumes stays below
/// 2^127 for up to two thousand of them. A box outside these bounds could
/// make such a sum overflow, so the contract leaves it out.
#[verifier::external_body]
fn index_insert(index: &mut BoxIndex, bounds: &ElementBounds)
    requires
        bounds.wf(),
        forall|e: ElementBounds| index_contents(*old(index)).count(e) > 0 ==> e.wf(),
    ensures
        index_contents(*final(index)) == index_contents(*old(index)).insert(*bounds),
{
    index.tree.insert(
        rstar::primitives::GeomWithData::new(
            rstar::primitives::Rectangle::from_corners(bounds.lower_corner(), bounds.upper_corner()),
            bounds.id.0,
        ),
    );
}

/// `RTree::remove`: takes one box equal to `bounds` out of the index, if it
/// holds one, and says whether it did.
#[verifier::external_body]
fn index_remove(index: &mut BoxIndex, bounds: &ElementBounds) -> (found: bool)
    requires
        bounds.wf(),
    ensures
        found == (index_contents(*old(index)).count(*bounds) > 0),
        index_contents(*final(index)) == index_contents(*old(index)).remove(*bounds),
{
    index.tree.remove(
        &rstar::primitives::GeomWithData::new(
            rstar::primitives::Rectangle::from_corners(bounds.lower_corner(), bounds.upper_corner()),
            bounds.id.0,
        ),
    ).is_some()
}

/// `RTree::iter`: the boxes of the index, in no order that is promised.
#[verifier::external_body]
fn index_elements(index: &BoxIndex) -> (elements: Vec<ElementBounds>)
    ensures
        elements@.to_multiset() == index_contents(*index),
{
    index.tree.iter().map(
        |e| ElementBounds::from_corners(e.data, e.geom().lower(), e.geom().upper()),
    ).collect()
}

/// What an index holds after an update: the boxes it held of nodes that
/// are not among `removed`, and the boxes of `added`.
pub open spec fn updated(
    held: Multiset<ElementBounds>,
    removed: Set<u64>,
    added: Seq<ElementBounds>,
) -> Multiset<ElementBounds> {
    held.filter(|e: ElementBounds| !removed.contains(e.id.0)).add(added.to_multiset())
}

/// The spatial index over the boxes of the nodes.
pub struct UINodesRTree {
    rtree: BoxIndex,
}

impl Default for UINodesRTree {
    fn default() -> (r: UINodesRTree)
        ensures
            r.wf(),
            r.contents() == Multiset::<ElementBounds>::empty(),
    {
        UINodesRTree::new()
    }
}

impl UINodesRTree {
    /// The boxes the index holds.
    pub closed spec fn contents(&self) -> Multiset<ElementBounds> {
        index_contents(self.rtree)
    }

    /// Every box the index holds is well formed.
    pub open spec fn wf(&self) -> bool {
        forall|e: ElementBounds| self.contents().count(e) > 0 ==> e.wf()
    }

    /// An index without boxes.
    pub fn new() -> (r: UINodesRTree)
        ensures
            r.wf(),
            r.contents() == Multiset::<ElementBounds>::empty(),
    {
        UINodesRTree { rtree: index_new() }
    }

    /// The boxes the index holds, in no particular order.
    pub fn elements(&self) -> (r: Vec<ElementBounds>)
        ensures
            r@.to_multiset() == self.contents(),
    {
        index_elements(&self.rtree)
    }

    /// Takes out every box of a node among `removed_node_ids`, then puts
    /// in the boxes of `new_bounds`.
    pub fn update(&mut self, removed_node_ids: &HashSet<u64>, new_bounds: &Vec<ElementBounds>)
        requires
            old(self).wf(),
            forall|k: int| 0 <= k < new_bounds@.len() ==> (#[trigger] new_bounds@[k]).wf(),
        ensures
            final(self).wf(),
            final(self).contents() == updated(
                old(self).contents(),
                removed_node_ids@,
                new_bounds@,
            ),
    {
        broadcast use vstd::multiset::group_multiset_axioms;
        broadcast use vstd::seq_lib::group_to_multiset_ensures;

        let ghost held = self.contents();
        let ghost removed = removed_node_ids@;
        let ghost kept = held.filter(|e: ElementBounds| !removed.contains(e.id.0));
        let elements = index_elements(&self.rtree);
        let mut left: usize = elements.len();
        assert(elements@.take(left as int) =~= elements@);
        while left > 0
            invariant
                left <= elements@.len(),
                removed == removed_node_ids@,
                held == elements@.to_multiset(),
                kept == held.filter(|e: ElementBounds| !removed.contains(e.id.0)),
                forall|e: ElementBounds| held.count(e) > 0 ==> e.wf(),
                forall|e: ElementBounds|
                    #![trigger self.contents().count(e)]
                    self.contents().count(e) == if removed.contains(e.id.0) {
                        elements@.take(left as int).to_multiset().count(e)
                    } else {
                        held.count(e)
                    },
            decreases left,
        {
            left -= 1;
            let element = elements[left];
            let ghost front = elements@.take(left as int);
            let ghost before = self.contents();
            proof {
                assert(elements@.take(left + 1) =~= front.push(element));
                vstd::seq_lib::to_multiset_build(front, element);
                elements@.to_multiset_ensures();
                assert(elements@[left as int] == element);
                assert(elements@.contains(element));
                assert(held.count(element) > 0);
            }
            if removed_node_ids.contains(&element.id.0) {
                let found = index_remove(&mut self.rtree, &element);
                proof {
                    assert forall|e: ElementBounds|
                        #![trigger self.contents().count(e)]
                        self.contents().count(e) == if removed.contains(e.id.0) {
                            front.to_multiset().count(e)
                        } else {
                            held.count(e)
                        } by {
                        assert(before.count(e) == if removed.contains(e.id.0) {
                            front.to_multiset().insert(element).count(e)
                        } else {
                            held.count(e)
                        });
                    }
                }
            } else {
                proof {
                    assert forall|e: ElementBounds|
                        #![trigger self.contents().count(e)]
                        self.contents().count(e) == if removed.contains(e.id.0) {
                            front.to_multiset().count(e)
                        } else {
                            held.count(e)
                        } by {
                        assert(before.count(e) == if removed.contains(e.id.0) {
                            front.to_multiset().insert(element).count(e)
                        } else {
                            held.count(e)
                        });
                    }
                }
            }
        }
        proof {
            assert(elements@.take(0) =~= Seq::<ElementBounds>::empty());
            assert(self.contents() =~= kept) by {
                assert forall|e: ElementBounds| self.contents().count(e) == kept.count(e) by {
                    assert(Seq::<ElementBounds>::empty().to_multiset().count(e) == 0);
                }
            }
        }
        let mut k: usize = 0;
        assert(new_bounds@.take(0) =~= Seq::<ElementBounds>::empty());
        while k < new_bounds.len()
            invariant
                k <= new_bounds@.len(),
                forall|j: int| 0 <= j < new_bounds@.len() ==> (#[trigger] new_bounds@[j]).wf(),
                forall|e: ElementBounds| held.count(e) > 0 ==> e.wf(),
                kept == held.filter(|e: ElementBounds| !removed.contains(e.id.0)),
                self.contents() == kept.add(new_bounds@.take(k as int).to_multiset()),
            decreases new_bounds@.len() - k,
        {
            proof {
                let front = new_bounds@.take(k as int);
                front.to_multiset_ensures();
                assert forall|e: ElementBounds| self.contents().count(e) > 0 implies e.wf() by {
                    if kept.count(e) > 0 {
                        assert(held.count(e) > 0);
                    } else {
                        assert(front.to_multiset().count(e) > 0);
                        assert(front.contains(e));
                        let w = choose|w: int| 0 <= w < front.len() && front[w] == e;
                        assert(new_bounds@[w] == e);
                    }
                }
                assert(new_bounds@.take(k + 1) =~= front.push(new_bounds@[k as int]));
                vstd::seq_lib::to_multiset_build(front, new_bounds@[k as int]);
            }
            index_insert(&mut self.rtree, &new_bounds[k]);
            k += 1;
            assert(self.contents() =~= kept.add(new_bounds@.take(k as int).to_multiset()));
        }
        proof {
            assert(new_bounds@.take(k as int) =~= new_bounds@);
            assert forall|e: ElementBounds| self.contents().count(e) > 0 implies e.wf() by {
                if kept.count(e) > 0 {
                    assert(held.count(e) > 0);
                } else {
                    new_bounds@.to_multiset_ensures();
                    assert(new_bounds@.to_multiset().count(e) > 0);
                    assert(new_bounds@.contains(e));
                }
            }
        }
    }
}

} // verus!
