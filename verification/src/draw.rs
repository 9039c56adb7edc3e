//! Draw emission: for every node of a solved tree, in processing order,
//! the corners of its rectangle and its material.

use vstd::prelude::*;
use crate::node::UINodeId;
use crate::style::{half, half_of, Color};
use crate::tree::UITree;
use crate::view::{Position, Transform, UIView};

verus! {

/// What a shape is filled with.
#[derive(Debug, Clone, Copy, PartialEq, Eq, Hash, Structural)]
pub struct UIMaterial {
    pub color: Color,
}

/// The shape of one node: the corners of its rectangle, clockwise from the
/// upper left one, and its material.
#[derive(Debug, Clone, PartialEq, Eq)]
pub struct DrawCommand {
    pub id: UINodeId,
    pub points: Vec<Position>,
    pub material: UIMaterial,
}

/// Takes the shapes of a view. A writer returns for every material the
/// name under which it keeps it, and is handed that name with each shape
/// of the material.
pub trait IUIWriter {
    /// Takes the shape of the node `id`.
    fn write_shape(&mut self, id: &UINodeId, points: Vec<Position>, material_name: String);

    /// Takes a material and returns the name it keeps it under.
    fn add_material(&mut self, material: UIMaterial) -> String;
}

/// The background of a node that sets none.
pub open spec fn no_color() -> Color {
    Color { r: 0, g: 0, b: 0 }
}

/// The corners of the rectangle of a node, clockwise from the upper left
/// one: the centre moved by half the size to either side.
pub open spec fn corners(t: Transform) -> Seq<Position> {
    let left = (t.position_center.x - half_of(t.size.x as int)) as i64;
    let right = (t.position_center.x + t.size.x - half_of(t.size.x as int)) as i64;
    let top = (t.position_center.y - half_of(t.size.y as int)) as i64;
    let bottom = (t.position_center.y + t.size.y - half_of(t.size.y as int)) as i64;
    seq![
        Position { x: left, y: top, z: 0 },
        Position { x: right, y: top, z: 0 },
        Position { x: right, y: bottom, z: 0 },
        Position { x: left, y: bottom, z: 0 },
    ]
}

/// The corners of the rectangle of a node.
pub fn corner_points(t: &Transform) -> (r: Vec<Position>)
    requires
        t.valid(),
    ensures
        r@ == corners(*t),
{
    let half_width = half(t.size.x);
    let half_height = half(t.size.y);
    let left = t.position_center.x - half_width;
    let right = t.position_center.x + (t.size.x - half_width);
    let top = t.position_center.y - half_height;
    let bottom = t.position_center.y + (t.size.y - half_height);
    let mut points: Vec<Position> = Vec::new();
    points.push(Position { x: left, y: top, z: 0 });
    points.push(Position { x: right, y: top, z: 0 });
    points.push(Position { x: right, y: bottom, z: 0 });
    points.push(Position { x: left, y: bottom, z: 0 });
    assert(points@ =~= corners(*t));
    points
}

impl UIView {
    /// Whether the view holds a transform of every node of `tree`, as it
    /// does after a pass over the tree.
    pub open spec fn covers(&self, tree: &UITree) -> bool {
        forall|id: UINodeId| #[trigger] tree.contains(id) ==> self.has_transform(id)
    }

    /// The shapes of the nodes of the tree, in processing order: for each
    /// node the corners of its cached rectangle and the material of its
    /// background colour, black where it sets none.
    pub fn draw_commands(&self, tree: &UITree) -> (r: Vec<DrawCommand>)
        requires
            self.wf(),
            tree.wf(),
            self.covers(tree),
        ensures
            r@.len() == tree.len(),
            forall|k: int|
                0 <= k < r@.len() ==> {
                    let node = tree.node_at(tree.processing_order()[k]);
                    &&& (#[trigger] r@[k]).id == node.id
                    &&& r@[k].points@ == corners(self.entry(node.id).transform)
                    &&& r@[k].material.color == match node.style.background_color {
                        Some(color) => color,
                        None => no_color(),
                    }
                },
    {
        let order = tree.toposort_indices();
        proof {
            tree.lemma_processing_order();
            tree.lemma_shape();
            self.lemma_wf();
            assert(crate::algo::as_ints(order@).len() == order@.len());
        }
        let ghost seq = tree.processing_order();
        let mut commands: Vec<DrawCommand> = Vec::new();
        let mut k: usize = 0;
        while k < order.len()
            invariant
                self.wf(),
                tree.wf(),
                self.covers(tree),
                k <= order@.len(),
                order@.len() == tree.len(),
                seq == tree.processing_order(),
                crate::algo::as_ints(order@) == seq,
                forall|j: int| 0 <= j < seq.len() ==> 0 <= (#[trigger] seq[j]) < tree.len(),
                forall|i: int|
                    0 <= i < tree.len() ==> tree.contains((#[trigger] tree.node_at(i)).id),
                forall|id: UINodeId| #[trigger]
                    self.has_transform(id) ==> self.entry(id).transform.valid(),
                commands@.len() == k,
                forall|j: int|
                    0 <= j < k ==> {
                        let node = tree.node_at(seq[j]);
                        &&& (#[trigger] commands@[j]).id == node.id
                        &&& commands@[j].points@ == corners(self.entry(node.id).transform)
                        &&& commands@[j].material.color == match node.style.background_color {
                            Some(color) => color,
                            None => no_color(),
                        }
                    },
            decreases order@.len() - k,
        {
            assert(seq[k as int] == order@[k as int]);
            let node = tree.node_by_index(order[k]);
            assert(tree.contains(node.id));
            let color = match node.style.background_color {
                Some(color) => color,
                None => Color { r: 0, g: 0, b: 0 },
            };
            match self.get_transform(&node.id) {
                Some(entry) => {
                    commands.push(
                        DrawCommand {
                            id: node.id,
                            points: corner_points(&entry.transform),
                            material: UIMaterial { color },
                        },
                    );
                },
                None => {
                    assert(false);
                },
            }
            k += 1;
        }
        commands
    }

    /// Hands the writer the material and the shape of every node of the
    /// tree, in processing order: the writer goes from state to state by a
    /// call of `add_material` and a call of `write_shape` for each node.
    pub fn build_draw_commands<W: IUIWriter>(&self, tree: &UITree, writer: &mut W)
        requires
            self.wf(),
            tree.wf(),
            self.covers(tree),
        ensures
            exists|
                before: Seq<W>,
                between: Seq<W>,
                names: Seq<String>,
                handed: Seq<Vec<Position>>,
            |
                {
                    &&& #[trigger] before.len() == tree.len() + 1
                    &&& #[trigger] between.len() == tree.len()
                    &&& #[trigger] names.len() == tree.len()
                    &&& #[trigger] handed.len() == tree.len()
                    &&& before[0] == *old(writer)
                    &&& before[tree.len() as int] == *final(writer)
                    &&& forall|k: int|
                        0 <= k < tree.len() ==> {
                            let node = tree.node_at(tree.processing_order()[k]);
                            &&& (#[trigger] handed[k])@ == corners(self.entry(node.id).transform)
                            &&& exists|r: &mut W|
                                *r == before[k] && *final(r) == between[k] && #[trigger] call_ensures(
                                    W::add_material,
                                    (r, material_of(node)),
                                    names[k],
                                )
                            &&& exists|r: &mut W|
                                *r == between[k] && *final(r) == before[k + 1]
                                    && #[trigger] call_ensures(
                                    W::write_shape,
                                    (r, &node.id, handed[k], names[k]),
                                    (),
                                )
                        }
                },
    {
        let order = tree.toposort_indices();
        proof {
            tree.lemma_processing_order();
            tree.lemma_shape();
            self.lemma_wf();
            assert(crate::algo::as_ints(order@).len() == order@.len());
        }
        let ghost seq = tree.processing_order();
        let ghost mut before: Seq<W> = seq![*writer];
        let ghost mut between: Seq<W> = Seq::empty();
        let ghost mut names: Seq<String> = Seq::empty();
        let ghost mut handed: Seq<Vec<Position>> = Seq::empty();
        let mut k: usize = 0;
        while k < order.len()
            invariant
                self.wf(),
                tree.wf(),
                self.covers(tree),
                k <= order@.len(),
                order@.len() == tree.len(),
                seq == tree.processing_order(),
                crate::algo::as_ints(order@) == seq,
                forall|j: int| 0 <= j < order@.len() ==> 0 <= (#[trigger] seq[j]) < tree.len(),
                forall|i: int|
                    0 <= i < tree.len() ==> tree.contains((#[trigger] tree.node_at(i)).id),
                forall|id: UINodeId| #[trigger]
                    self.has_transform(id) ==> self.entry(id).transform.valid(),
                before.len() == k + 1,
                between.len() == k,
                names.len() == k,
                handed.len() == k,
                before[0] == *old(writer),
                before[k as int] == *writer,
                forall|j: int|
                    0 <= j < k ==> {
                            let node = tree.node_at(seq[j]);
                            &&& (#[trigger] handed[j])@ == corners(self.entry(node.id).transform)
                            &&& exists|r: &mut W|
                                *r == before[j] && *final(r) == between[j] && #[trigger] call_ensures(
                                    W::add_material,
                                    (r, material_of(node)),
                                    names[j],
                                )
                            &&& exists|r: &mut W|
                                *r == between[j] && *final(r) == before[j + 1]
                                    && #[trigger] call_ensures(
                                    W::write_shape,
                                    (r, &node.id, handed[j], names[j]),
                                    (),
                                )
                    },
            decreases order@.len() - k,
        {
            assert(seq[k as int] == order@[k as int]);
            let node = tree.node_by_index(order[k]);
            assert(tree.contains(node.id));
            let color = match node.style.background_color {
                Some(color) => color,
                None => Color { r: 0, g: 0, b: 0 },
            };
            let ghost earlier_before = before;
            let ghost earlier_between = between;
            let ghost earlier_names = names;
            let ghost earlier_handed = handed;
            match self.get_transform(&node.id) {
                Some(entry) => {
                    let material = UIMaterial { color };
                    assert(material == material_of(*node));
                    let ghost first = *writer;
                    let material_name = writer.add_material(material);
                    let ghost second = *writer;
                    assert(exists|r: &mut W|
                        *r == first && *final(r) == second && #[trigger] call_ensures(
                            W::add_material,
                            (r, material),
                            material_name,
                        ));
                    let points = corner_points(&entry.transform);
                    proof {
                        between = between.push(second);
                        names = names.push(material_name);
                        handed = handed.push(points);
                    }
                    writer.write_shape(&node.id, points, material_name);
                    proof {
                        before = before.push(*writer);
                        assert(exists|r: &mut W|
                            *r == second && *final(r) == before[k + 1] && #[trigger] call_ensures(
                                W::write_shape,
                                (r, &node.id, handed[k as int], names[k as int]),
                                (),
                            ));
                    }
                },
                None => {
                    assert(false);
                },
            }
            proof {
                assert forall|j: int| 0 <= j < k + 1 implies ({
                            let node = tree.node_at(seq[j]);
                            &&& (#[trigger] handed[j])@ == corners(self.entry(node.id).transform)
                            &&& exists|r: &mut W|
                                *r == before[j] && *final(r) == between[j] && #[trigger] call_ensures(
                                    W::add_material,
                                    (r, material_of(node)),
                                    names[j],
                                )
                            &&& exists|r: &mut W|
                                *r == between[j] && *final(r) == before[j + 1]
                                    && #[trigger] call_ensures(
                                    W::write_shape,
                                    (r, &node.id, handed[j], names[j]),
                                    (),
                                )
                }) by {
                    if j < k {
                        assert(names[j] == earlier_names[j]);
                        assert(handed[j] == earlier_handed[j]);
                        assert(before[j] == earlier_before[j]);
                        assert(before[j + 1] == earlier_before[j + 1]);
                        assert(between[j] == earlier_between[j]);
                    } else {
                        assert(before[j] == earlier_before[k as int]);
                        assert(tree.node_at(seq[j]) == *node);
                    }
                }
            }
            k += 1;
        }
    }
}

/// The material of a node: its background colour, black where it sets none.
pub open spec fn material_of(node: crate::node::UINode) -> UIMaterial {
    UIMaterial {
        color: match node.style.background_color {
            Some(color) => color,
            None => no_color(),
        },
    }
}

} // verus!
