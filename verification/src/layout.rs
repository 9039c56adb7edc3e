//! The two phases of the layout solver as functions of the tree: the
//! virtual size of every node, composed from the leaves up, and the
//! transform of every node, placed from the roots down.

use vstd::prelude::*;
use crate::algo::as_ints;
use crate::style::{
    calc_or_zero, clamp, clamp_length, lemma_resolved_range, percent_of, resolved_or_zero,
    FlexDirection, SizeValue, UIStyleRules, Unit, MAX_LENGTH,
};
use crate::tree::UITree;
use crate::view::{Extent, Position, Transform};

verus! {

/// The largest part a measure can have. Parts saturate at this bound.
pub const MAX_PART: u64 = 0xffff_ffff_ffff_ffff;

/// The value `x`, or the largest part if `x` is beyond it.
pub open spec fn cap(x: int) -> int {
    if x > MAX_PART as int {
        MAX_PART as int
    } else {
        x
    }
}

/// The sum of two parts, saturating.
pub fn sat_add(a: u64, b: u64) -> (r: u64)
    ensures
        r == cap(a + b),
{
    if a > MAX_PART - b {
        MAX_PART
    } else {
        a + b
    }
}

/// The product of two parts, saturating.
pub fn sat_mul(a: u64, b: u64) -> (r: u64)
    ensures
        r == cap(a * b),
{
    assert(0 <= a * b <= 0xffff_ffff_ffff_ffff * 0xffff_ffff_ffff_ffff) by (nonlinear_arith)
        requires
            0 <= a <= 0xffff_ffff_ffff_ffff,
            0 <= b <= 0xffff_ffff_ffff_ffff,
    ;
    let wide: u128 = (a as u128) * (b as u128);
    if wide > MAX_PART as u128 {
        MAX_PART
    } else {
        wide as u64
    }
}

/// A length before the parent's size is known: a percentage of the space
/// the parent offers, plus a number of pixels.
#[derive(Debug, Clone, Copy, PartialEq, Eq, Structural)]
pub struct Measure {
    pub percent: u64,
    pub pixel: u64,
}

impl Measure {
    /// Nothing: no percentage, no pixels.
    pub open spec fn zero() -> Measure {
        Measure { percent: 0, pixel: 0 }
    }

    /// All of the space the parent offers.
    pub open spec fn full() -> Measure {
        Measure { percent: 100, pixel: 0 }
    }

    /// The measure of an explicit unit: its pixels, or its percentage.
    pub open spec fn of_unit(unit: Unit) -> Measure {
        match unit {
            Unit::Pixel(px) => Measure { percent: 0, pixel: px as u64 },
            Unit::Percent(percent) => Measure { percent: percent as u64, pixel: 0 },
        }
    }

    /// The sum of two measures, part by part.
    pub open spec fn plus(self, other: Measure) -> Measure {
        Measure {
            percent: cap(self.percent + other.percent) as u64,
            pixel: cap(self.pixel + other.pixel) as u64,
        }
    }

    /// The larger of two measures, part by part.
    pub open spec fn larger(self, other: Measure) -> Measure {
        Measure {
            percent: if self.percent > other.percent {
                self.percent
            } else {
                other.percent
            },
            pixel: if self.pixel > other.pixel {
                self.pixel
            } else {
                other.pixel
            },
        }
    }

    /// This measure with `times` times the unit added to the part of the
    /// unit's kind; an unset unit adds nothing.
    pub open spec fn with_units(self, unit: Option<Unit>, times: int) -> Measure {
        match unit {
            Some(Unit::Pixel(px)) => Measure {
                percent: self.percent,
                pixel: cap(self.pixel + cap(px * times)) as u64,
            },
            Some(Unit::Percent(percent)) => Measure {
                percent: cap(self.percent + cap(percent * times)) as u64,
                pixel: self.pixel,
            },
            None => self,
        }
    }

    /// The length this measure stands for when the parent offers `space`:
    /// the percentage of the space plus the pixels.
    pub open spec fn resolved(self, space: int) -> int {
        clamp_length(percent_of(space, self.percent as int) + self.pixel)
    }

    /// Adds two measures, part by part.
    pub fn add(&self, other: &Measure) -> (r: Measure)
        ensures
            r == self.plus(*other),
    {
        Measure {
            percent: sat_add(self.percent, other.percent),
            pixel: sat_add(self.pixel, other.pixel),
        }
    }

    /// The larger of two measures, part by part.
    pub fn max(&self, other: &Measure) -> (r: Measure)
        ensures
            r == self.larger(*other),
    {
        Measure {
            percent: if self.percent > other.percent {
                self.percent
            } else {
                other.percent
            },
            pixel: if self.pixel > other.pixel {
                self.pixel
            } else {
                other.pixel
            },
        }
    }

    /// Adds `times` times the unit to the part of the unit's kind.
    pub fn add_units(&self, unit: Option<Unit>, times: u64) -> (r: Measure)
        ensures
            r == self.with_units(unit, times as int),
    {
        match unit {
            Some(Unit::Pixel(px)) => Measure {
                percent: self.percent,
                pixel: sat_add(self.pixel, sat_mul(px as u64, times)),
            },
            Some(Unit::Percent(percent)) => Measure {
                percent: sat_add(self.percent, sat_mul(percent as u64, times)),
                pixel: self.pixel,
            },
            None => *self,
        }
    }

    /// Resolves this measure against the space the parent offers.
    pub fn resolve(&self, space: i64) -> (r: i64)
        requires
            -MAX_LENGTH <= space <= MAX_LENGTH,
        ensures
            r == self.resolved(space as int),
            -MAX_LENGTH <= r <= MAX_LENGTH,
    {
        let percent = self.percent as i128;
        let pixel = self.pixel as i128;
        let share: i128 = if space >= 0 {
            assert(0 <= (space as i128) * percent <= MAX_LENGTH * 0xffff_ffff_ffff_ffff)
                by (nonlinear_arith)
                requires
                    0 <= space <= MAX_LENGTH,
                    0 <= percent <= 0xffff_ffff_ffff_ffff,
            ;
            ((space as i128) * percent) / 100
        } else {
            assert(0 <= (-(space as i128)) * percent <= MAX_LENGTH * 0xffff_ffff_ffff_ffff)
                by (nonlinear_arith)
                requires
                    0 < -space <= MAX_LENGTH,
                    0 <= percent <= 0xffff_ffff_ffff_ffff,
            ;
            -(((-(space as i128)) * percent) / 100)
        };
        let sum: i128 = share + pixel;
        if sum < -(MAX_LENGTH as i128) {
            -MAX_LENGTH
        } else if sum > MAX_LENGTH as i128 {
            MAX_LENGTH
        } else {
            sum as i64
        }
    }
}

/// The virtual size of a node: its width and its height as measures.
#[derive(Debug, Clone, Copy, PartialEq, Eq, Structural)]
pub struct NodeVirtualSize {
    pub width: Measure,
    pub height: Measure,
}

/// The measure of a child along one axis; nothing for an index that is no
/// later node of the tree.
pub open spec fn child_measure(tree: &UITree, i: int, k: int, horizontal: bool) -> Measure
    decreases tree.len() - i, k, 1int,
{
    let c = tree.child_indices(i)[k];
    if i < c < tree.len() {
        virtual_measure(tree, c, horizontal)
    } else {
        Measure::zero()
    }
}

/// The sum of the measures of the first `k` children of the `i`-th node
/// along one axis.
pub open spec fn children_total(tree: &UITree, i: int, k: int, horizontal: bool) -> Measure
    decreases tree.len() - i, k, 0int,
{
    if k <= 0 {
        Measure::zero()
    } else {
        children_total(tree, i, k - 1, horizontal).plus(child_measure(tree, i, k - 1, horizontal))
    }
}

/// The largest of the measures of the first `k` children of the `i`-th
/// node along one axis, part by part.
pub open spec fn children_largest(tree: &UITree, i: int, k: int, horizontal: bool) -> Measure
    decreases tree.len() - i, k, 0int,
{
    if k <= 0 {
        Measure::zero()
    } else {
        children_largest(tree, i, k - 1, horizontal).larger(
            child_measure(tree, i, k - 1, horizontal),
        )
    }
}

/// What the children of the `i`-th node take along one axis, before the
/// node's padding: along the node's main axis the sum of their measures
/// and one gap between each two of them, across it the largest of their
/// measures; nothing for a node without children.
pub open spec fn content_measure(tree: &UITree, i: int, horizontal: bool) -> Measure
    decreases tree.len() - i, tree.child_indices(i).len(), 2int,
{
    let style = tree.node_at(i).style;
    let count = tree.child_indices(i).len() as int;
    if (style.main_axis() == FlexDirection::Row) == horizontal {
        children_total(tree, i, count, horizontal).with_units(
            style.gap,
            if count > 0 {
                count - 1
            } else {
                0
            },
        )
    } else {
        children_largest(tree, i, count, horizontal)
    }
}

/// The measure of the `i`-th node along one axis: all of the offered
/// space for an automatic size, the unit itself for an explicit one, and
/// for a size that fits the content the content's measure plus the padding
/// of both sides.
pub open spec fn virtual_measure(tree: &UITree, i: int, horizontal: bool) -> Measure
    decreases tree.len() - i, tree.child_indices(i).len(), 3int,
{
    let style = tree.node_at(i).style;
    let rule = if horizontal {
        style.width_rule()
    } else {
        style.height_rule()
    };
    match rule {
        SizeValue::Auto => Measure::full(),
        SizeValue::Unit(unit) => Measure::of_unit(unit),
        SizeValue::FitContent => if horizontal {
            content_measure(tree, i, horizontal).with_units(style.padding.left, 1).with_units(
                style.padding.right,
                1,
            )
        } else {
            content_measure(tree, i, horizontal).with_units(style.padding.bottom, 1).with_units(
                style.padding.top,
                1,
            )
        },
    }
}

/// The virtual size of the `i`-th node.
pub open spec fn virtual_size(tree: &UITree, i: int) -> NodeVirtualSize {
    NodeVirtualSize {
        width: virtual_measure(tree, i, true),
        height: virtual_measure(tree, i, false),
    }
}

/// A node without children takes nothing for its content along either
/// axis, whatever its gap.
pub proof fn lemma_childless_content(tree: &UITree, i: int, horizontal: bool)
    requires
        tree.child_indices(i).len() == 0,
    ensures
        content_measure(tree, i, horizontal) == Measure::zero(),
{
    assert(children_total(tree, i, 0, horizontal) == Measure::zero());
    assert(children_largest(tree, i, 0, horizontal) == Measure::zero());
    match tree.node_at(i).style.gap {
        Some(Unit::Pixel(px)) => {
            assert(px * 0 == 0);
        },
        Some(Unit::Percent(percent)) => {
            assert(percent * 0 == 0);
        },
        None => {},
    }
}

/// The width of a node without children that fits its content, with a
/// padding in pixels to the left and to the right, measures the two
/// paddings together and no percentage.
pub proof fn lemma_childless_fit_content_width(tree: &UITree, i: int, left: u32, right: u32)
    requires
        tree.child_indices(i).len() == 0,
        tree.node_at(i).style.width_rule() == SizeValue::FitContent,
        tree.node_at(i).style.padding.left == Some(Unit::Pixel(left)),
        tree.node_at(i).style.padding.right == Some(Unit::Pixel(right)),
    ensures
        virtual_measure(tree, i, true) == (Measure { percent: 0, pixel: (left + right) as u64 }),
{
    lemma_childless_content(tree, i, true);
    assert(left * 1 == left);
    assert(right * 1 == right);
}

/// The height of a node without children that fits its content, with a
/// padding in pixels above and below, measures the two paddings together
/// and no percentage.
pub proof fn lemma_childless_fit_content_height(tree: &UITree, i: int, top: u32, bottom: u32)
    requires
        tree.child_indices(i).len() == 0,
        tree.node_at(i).style.height_rule() == SizeValue::FitContent,
        tree.node_at(i).style.padding.top == Some(Unit::Pixel(top)),
        tree.node_at(i).style.padding.bottom == Some(Unit::Pixel(bottom)),
    ensures
        virtual_measure(tree, i, false) == (Measure { percent: 0, pixel: (top + bottom) as u64 }),
{
    lemma_childless_content(tree, i, false);
    assert(top * 1 == top);
    assert(bottom * 1 == bottom);
}

/// The measure of the `i`-th node along one axis, from the virtual sizes
/// of its children.
fn measure_axis(
    tree: &UITree,
    i: usize,
    children: &Vec<usize>,
    sizes: &Vec<NodeVirtualSize>,
    horizontal: bool,
) -> (r: Measure)
    requires
        tree.wf(),
        i < tree.len(),
        as_ints(children@) == tree.child_indices(i as int),
        sizes@.len() == tree.len(),
        forall|k: int|
            0 <= k < children@.len() ==> (#[trigger] children@[k]) < tree.len() && sizes@[children@[k] as int]
                == virtual_size(tree, children@[k] as int),
    ensures
        r == virtual_measure(tree, i as int, horizontal),
{
    let style = tree.node_by_index(i).style;
    let rule = if horizontal {
        match style.width {
            Some(w) => w,
            None => SizeValue::Auto,
        }
    } else {
        match style.height {
            Some(h) => h,
            None => SizeValue::Auto,
        }
    };
    match rule {
        SizeValue::Auto => Measure { percent: 100, pixel: 0 },
        SizeValue::Unit(unit) => match unit {
            Unit::Pixel(px) => Measure { percent: 0, pixel: px as u64 },
            Unit::Percent(percent) => Measure { percent: percent as u64, pixel: 0 },
        },
        SizeValue::FitContent => {
            let row = match style.flex_direction {
                Some(FlexDirection::Col) => false,
                _ => true,
            };
            let main = row == horizontal;
            let count = children.len();
            proof {
                tree.lemma_shape();
                assert(as_ints(children@).len() == children@.len());
            }
            let mut acc = Measure { percent: 0, pixel: 0 };
            let mut k: usize = 0;
            while k < count
                invariant
                    tree.wf(),
                    i < tree.len(),
                    k <= count,
                    count == children@.len(),
                    count == tree.child_indices(i as int).len(),
                    as_ints(children@) == tree.child_indices(i as int),
                    sizes@.len() == tree.len(),
                    forall|j: int|
                        0 <= j < children@.len() ==> (#[trigger] children@[j]) < tree.len()
                            && sizes@[children@[j] as int] == virtual_size(
                            tree,
                            children@[j] as int,
                        ),
                    forall|a: int, j: int|
                        0 <= a < tree.len() && 0 <= j < tree.child_indices(a).len() ==> a < (
                        #[trigger] tree.child_indices(a)[j]) < tree.len(),
                    acc == if main {
                        children_total(tree, i as int, k as int, horizontal)
                    } else {
                        children_largest(tree, i as int, k as int, horizontal)
                    },
                decreases count - k,
            {
                let child = children[k];
                let size = sizes[child];
                let part = if horizontal {
                    size.width
                } else {
                    size.height
                };
                proof {
                    assert(as_ints(children@)[k as int] == child);
                    assert(tree.child_indices(i as int)[k as int] == child);
                    assert(part == child_measure(tree, i as int, k as int, horizontal));
                }
                acc = if main {
                    acc.add(&part)
                } else {
                    acc.max(&part)
                };
                k += 1;
            }
            let content = if main {
                acc.add_units(
                    style.gap,
                    if count > 0 {
                        (count - 1) as u64
                    } else {
                        0
                    },
                )
            } else {
                acc
            };
            assert(content == content_measure(tree, i as int, horizontal));
            if horizontal {
                content.add_units(style.padding.left, 1).add_units(style.padding.right, 1)
            } else {
                content.add_units(style.padding.bottom, 1).add_units(style.padding.top, 1)
            }
        },
    }
}

/// The first phase of the layout: the virtual size of every node, taken
/// in the processing order from its end, so that every node comes after
/// its children.
pub fn virtual_sizes(tree: &UITree, order: &Vec<usize>) -> (sizes: Vec<NodeVirtualSize>)
    requires
        tree.wf(),
        as_ints(order@) == tree.processing_order(),
        tree.is_processing_order(as_ints(order@)),
    ensures
        sizes@.len() == tree.len(),
        forall|i: int| 0 <= i < tree.len() ==> (#[trigger] sizes@[i]) == virtual_size(tree, i),
{
    let n = tree.node_count();
    let zero = NodeVirtualSize {
        width: Measure { percent: 0, pixel: 0 },
        height: Measure { percent: 0, pixel: 0 },
    };
    let mut sizes: Vec<NodeVirtualSize> = Vec::new();
    let mut filled: usize = 0;
    while filled < n
        invariant
            filled <= n,
            sizes@.len() == filled,
        decreases n - filled,
    {
        sizes.push(zero);
        filled += 1;
    }
    proof {
        tree.lemma_processing_order();
        tree.lemma_shape();
        assert(as_ints(order@).len() == order@.len());
    }
    let ghost seq = tree.processing_order();
    let mut left: usize = order.len();
    while left > 0
        invariant
            tree.wf(),
            n == tree.len(),
            sizes@.len() == n,
            left <= order@.len(),
            order@.len() == n,
            seq == tree.processing_order(),
            as_ints(order@) == seq,
            seq.len() == n,
            seq.no_duplicates(),
            forall|k: int| 0 <= k < n ==> 0 <= (#[trigger] seq[k]) < n,
            forall|i: int| 0 <= i < n ==> seq.contains(i),
            forall|b: int|
                0 <= b < n && tree.parent_index(#[trigger] seq[b]).is_some() ==> exists|a: int|
                    0 <= a < b && seq[a] == tree.parent_index(seq[b]).unwrap(),
            forall|a: int, j: int|
                0 <= a < tree.len() && 0 <= j < tree.child_indices(a).len() ==> a < (
                #[trigger] tree.child_indices(a)[j]) < tree.len() && tree.parent_index(
                    tree.child_indices(a)[j],
                ) == Some(a),
            forall|pos: int|
                left <= pos < n ==> sizes@[#[trigger] seq[pos]] == virtual_size(tree, seq[pos]),
        decreases left,
    {
        left -= 1;
        let node = order[left];
        assert(seq[left as int] == node);
        let children = tree.children_by_index(node);
        proof {
            assert(as_ints(children@).len() == children@.len());
            assert forall|k: int| 0 <= k < children@.len() implies (#[trigger] children@[k])
                < tree.len() && sizes@[children@[k] as int] == virtual_size(
                tree,
                children@[k] as int,
            ) by {
                let c = children@[k] as int;
                assert(as_ints(children@)[k] == c);
                assert(tree.child_indices(node as int)[k] == c);
                assert(seq.contains(c));
                let at = choose|at: int| 0 <= at < seq.len() && seq[at] == c;
                assert(tree.parent_index(seq[at]) == Some(node as int));
                let up = choose|up: int|
                    0 <= up < at && seq[up] == tree.parent_index(seq[at]).unwrap();
                assert(up == left);
            }
        }
        let width = measure_axis(tree, node, &children, &sizes, true);
        let height = measure_axis(tree, node, &children, &sizes, false);
        let ghost before = sizes@;
        sizes[node] = NodeVirtualSize { width, height };
        proof {
            assert forall|pos: int| left <= pos < n implies sizes@[#[trigger] seq[pos]]
                == virtual_size(tree, seq[pos]) by {
                if pos > left {
                    assert(seq[pos] != seq[left as int]);
                    assert(sizes@[seq[pos]] == before[seq[pos]]);
                }
            }
        }
    }
    proof {
        assert forall|i: int| 0 <= i < tree.len() implies (#[trigger] sizes@[i]) == virtual_size(
            tree,
            i,
        ) by {
            assert(seq.contains(i));
            let at = choose|at: int| 0 <= at < seq.len() && seq[at] == i;
            assert(sizes@[seq[at]] == virtual_size(tree, seq[at]));
        }
    }
    sizes
}

/// The space that a node with the transform `t` offers its children: the
/// width and the height of its content box.
pub open spec fn offered(t: Transform) -> Extent {
    Extent {
        x: clamp_length(t.content_size.left + t.content_size.right) as i64,
        y: clamp_length(t.content_size.top + t.content_size.bottom) as i64,
    }
}

/// The gap between two children of a container with the given style and
/// resolved size: its gap unit taken against its own width if it lays its
/// children out in a row, against its own height if in a column.
pub open spec fn gap_of(style: UIStyleRules, size: Extent) -> int {
    resolved_or_zero(
        style.gap,
        if style.main_axis() == FlexDirection::Row {
            size.x as int
        } else {
            size.y as int
        },
    )
}

/// What a child with the transform `t` takes along the main axis of its
/// parent: the extent of its outer box along that axis.
pub open spec fn taken(t: Transform, row: bool) -> int {
    if row {
        t.outer_size.left + t.outer_size.right
    } else {
        t.outer_size.top + t.outer_size.bottom
    }
}

/// The transform of a node under a placed parent.
///
/// Its size is its virtual size resolved against the space the parent
/// offers. Its boxes follow from its size, with margins and paddings in
/// percent taken of the offered space. Its centre lies at the start of the
/// parent's content box, moved by the distance to the side of its own
/// outer box and, along the parent's main axis, by `shift`: what the
/// siblings of lower rank take with their gaps.
#[verifier::opaque]
pub open spec fn placed_under(
    style: UIStyleRules,
    row: bool,
    measure: NodeVirtualSize,
    above: Transform,
    shift: int,
) -> Transform {
    let space = offered(above);
    let size = Extent {
        x: measure.width.resolved(space.x as int) as i64,
        y: measure.height.resolved(space.y as int) as i64,
    };
    let outer = style.outer_box(size, space);
    Transform {
        position_center: Position {
            x: clamp_length(
                above.position_center.x - above.content_size.left + outer.left + if row {
                    shift
                } else {
                    0
                },
            ) as i64,
            y: clamp_length(
                above.position_center.y - above.content_size.top + outer.top + if row {
                    0
                } else {
                    shift
                },
            ) as i64,
            z: 0,
        },
        size,
        outer_size: outer,
        content_size: style.content_box(size, space),
    }
}

/// The transform of a root in a window.
///
/// Its size is its virtual size resolved against the window, its boxes
/// follow from its size, and its centre lies the distance to the side of
/// its outer box from the window's corner.
#[verifier::opaque]
pub open spec fn placed_root(style: UIStyleRules, measure: NodeVirtualSize, window: Extent) -> Transform {
    let size = Extent {
        x: measure.width.resolved(window.x as int) as i64,
        y: measure.height.resolved(window.y as int) as i64,
    };
    let outer = style.outer_box(size, window);
    Transform {
        position_center: Position { x: outer.left, y: outer.top, z: 0 },
        size,
        outer_size: outer,
        content_size: style.content_box(size, window),
    }
}

/// The distance along the parent's main axis between the start of the
/// parent's content box and the `i`-th node, counting the first `k`
/// children of the parent: for each of them what it takes and one gap.
pub open spec fn offset_before(tree: &UITree, window: Extent, i: int, k: int) -> int
    decreases i, 0int, k,
{
    if k <= 0 {
        0
    } else {
        match tree.parent_index(i) {
            Some(p) => {
                let s = tree.child_indices(p)[k - 1];
                offset_before(tree, window, i, k - 1) + if 0 <= p < i && 0 <= s < i {
                    taken(
                        transform_of(tree, window, s),
                        tree.node_at(p).style.main_axis() == FlexDirection::Row,
                    ) + gap_of(tree.node_at(p).style, transform_of(tree, window, p).size)
                } else {
                    0
                }
            },
            None => 0,
        }
    }
}

/// The transform of the `i`-th node in a window of the given size: that
/// of a root in the window, or that of a node under its parent, behind its
/// siblings of lower rank.
pub open spec fn transform_of(tree: &UITree, window: Extent, i: int) -> Transform
    decreases i, 1int, 0int,
{
    match tree.parent_index(i) {
        Some(p) => if 0 <= p < i {
            placed_under(
                tree.node_at(i).style,
                tree.node_at(p).style.main_axis() == FlexDirection::Row,
                virtual_size(tree, i),
                transform_of(tree, window, p),
                offset_before(tree, window, i, tree.rank_of(i)),
            )
        } else {
            Transform::origin()
        },
        None => placed_root(tree.node_at(i).style, virtual_size(tree, i), window),
    }
}

/// Every length of a transform that the solver computes is within the
/// range of resolved lengths.
pub proof fn lemma_transform_valid(tree: &UITree, window: Extent, i: int)
    ensures
        transform_of(tree, window, i).valid(),
{
    reveal(placed_under);
    reveal(placed_root);
}

/// Brings a wide length into the range of resolved lengths.
fn clamp_wide(x: i128) -> (r: i64)
    ensures
        r == clamp_length(x as int),
        -MAX_LENGTH <= r <= MAX_LENGTH,
{
    if x < -(MAX_LENGTH as i128) {
        -MAX_LENGTH
    } else if x > MAX_LENGTH as i128 {
        MAX_LENGTH
    } else {
        x as i64
    }
}

/// The width and height of the content box of a placed node.
fn offered_by(t: &Transform) -> (r: Extent)
    requires
        t.valid(),
    ensures
        r == offered(*t),
        r.valid(),
{
    Extent {
        x: clamp(t.content_size.left + t.content_size.right),
        y: clamp(t.content_size.top + t.content_size.bottom),
    }
}

/// The distance along the parent's main axis from the start of the
/// parent's content box to the `i`-th node: what its siblings of lower
/// rank take, with one gap after each.
fn sibling_shift(
    tree: &UITree,
    window: Extent,
    i: usize,
    p: usize,
    row: bool,
    parent_gap: i64,
    placed: &Vec<Transform>,
) -> (shift: i128)
    requires
        tree.wf(),
        i < tree.len(),
        tree.parent_index(i as int) == Some(p as int),
        placed@.len() == tree.len(),
        row == (tree.node_at(p as int).style.main_axis() == FlexDirection::Row),
        parent_gap == gap_of(
            tree.node_at(p as int).style,
            transform_of(tree, window, p as int).size,
        ),
        -MAX_LENGTH <= parent_gap <= MAX_LENGTH,
        forall|k: int|
            0 <= k < tree.rank_of(i as int) ==> placed@[#[trigger] tree.child_indices(p as int)[k]]
                == transform_of(tree, window, tree.child_indices(p as int)[k]),
    ensures
        shift == offset_before(tree, window, i as int, tree.rank_of(i as int)),
        -3298534883328 * 0xffff_ffff_ffff_ffff <= shift <= 3298534883328 * 0xffff_ffff_ffff_ffff,
{
    proof {
        tree.lemma_shape();
    }
    let siblings = tree.children_by_index(p);
    let ghost rank = tree.rank_of(i as int);
    let ghost listed = tree.child_indices(p as int);
    assert(listed.len() == siblings@.len()) by {
        assert(as_ints(siblings@).len() == siblings@.len());
    }
    assert(p < i);
    let mut shift: i128 = 0;
    let mut k: usize = 0;
    while k < siblings.len() && siblings[k] != i
        invariant
            i < tree.len(),
            p < i,
            tree.parent_index(i as int) == Some(p as int),
            rank == tree.rank_of(i as int),
            listed == tree.child_indices(p as int),
            as_ints(siblings@) == listed,
            listed.len() == siblings@.len(),
            0 <= rank < listed.len(),
            listed[rank] == i,
            forall|a: int| 0 <= a < rank ==> 0 <= #[trigger] listed[a] < i,
            k <= rank,
            placed@.len() == tree.len(),
            forall|j: int|
                0 <= j < rank ==> placed@[#[trigger] listed[j]] == transform_of(
                    tree,
                    window,
                    listed[j],
                ),
            row == (tree.node_at(p as int).style.main_axis() == FlexDirection::Row),
            parent_gap == gap_of(
                tree.node_at(p as int).style,
                transform_of(tree, window, p as int).size,
            ),
            -MAX_LENGTH <= parent_gap <= MAX_LENGTH,
            shift == offset_before(tree, window, i as int, k as int),
            -3298534883328 * k <= shift <= 3298534883328 * k,
        decreases siblings@.len() - k,
    {
        assert(as_ints(siblings@)[k as int] == siblings@[k as int]);
        let sibling = siblings[k];
        assert(listed[k as int] == sibling);
        let at = placed[sibling];
        proof {
            lemma_transform_valid(tree, window, sibling as int);
            assert(at == transform_of(tree, window, listed[k as int]));
        }
        let extent: i64 = if row {
            at.outer_size.left + at.outer_size.right
        } else {
            at.outer_size.top + at.outer_size.bottom
        };
        assert(extent == taken(transform_of(tree, window, sibling as int), row));
        shift = shift + (extent as i128) + (parent_gap as i128);
        k += 1;
    }
    proof {
        assert(k == rank) by {
            if k < rank {
                assert(as_ints(siblings@)[k as int] == siblings@[k as int]);
                assert(listed[k as int] < i);
            }
        }
    }
    shift
}

/// Places the `i`-th node under its placed parent.
fn place_child(
    tree: &UITree,
    window: Extent,
    i: usize,
    p: usize,
    measure: NodeVirtualSize,
    above: Transform,
    shift: i128,
) -> (r: Transform)
    requires
        tree.wf(),
        i < tree.len(),
        p < i,
        tree.parent_index(i as int) == Some(p as int),
        measure == virtual_size(tree, i as int),
        above == transform_of(tree, window, p as int),
        shift == offset_before(tree, window, i as int, tree.rank_of(i as int)),
        -3298534883328 * 0xffff_ffff_ffff_ffff <= shift <= 3298534883328 * 0xffff_ffff_ffff_ffff,
    ensures
        r == transform_of(tree, window, i as int),
{
    let style = tree.node_by_index(i).style;
    proof {
        lemma_transform_valid(tree, window, p as int);
        reveal(placed_under);
    }
    let space = offered_by(&above);
    let size = Extent { x: measure.width.resolve(space.x), y: measure.height.resolve(space.y) };
    let outer = style.calc_outer_box(size, space);
    let content = style.calc_content_box(size, space);
    let parent_style = tree.node_by_index(p).style;
    let row = match parent_style.flex_direction {
        Some(FlexDirection::Col) => false,
        _ => true,
    };
    let x: i128 = (above.position_center.x as i128) - (above.content_size.left as i128) + (
    outer.left as i128) + if row {
        shift
    } else {
        0
    };
    let y: i128 = (above.position_center.y as i128) - (above.content_size.top as i128) + (
    outer.top as i128) + if row {
        0
    } else {
        shift
    };
    Transform {
        position_center: Position { x: clamp_wide(x), y: clamp_wide(y), z: 0 },
        size,
        outer_size: outer,
        content_size: content,
    }
}

/// Places a root in the window.
fn place_root(tree: &UITree, window: Extent, i: usize, measure: NodeVirtualSize) -> (r: Transform)
    requires
        tree.wf(),
        window.valid(),
        i < tree.len(),
        tree.parent_index(i as int).is_none(),
        measure == virtual_size(tree, i as int),
    ensures
        r == transform_of(tree, window, i as int),
{
    proof {
        reveal(placed_root);
    }
    let style = tree.node_by_index(i).style;
    let size = Extent { x: measure.width.resolve(window.x), y: measure.height.resolve(window.y) };
    let outer = style.calc_outer_box(size, window);
    let content = style.calc_content_box(size, window);
    Transform {
        position_center: Position { x: outer.left, y: outer.top, z: 0 },
        size,
        outer_size: outer,
        content_size: content,
    }
}

/// Places the `i`-th node, whose parent and siblings of lower rank are
/// placed already, and resolves the gap between its own children.
fn place_node(
    tree: &UITree,
    window: Extent,
    i: usize,
    measure: NodeVirtualSize,
    placed: &Vec<Transform>,
    gaps: &Vec<i64>,
) -> (r: (Transform, i64))
    requires
        tree.wf(),
        window.valid(),
        i < tree.len(),
        measure == virtual_size(tree, i as int),
        placed@.len() == tree.len(),
        gaps@.len() == tree.len(),
        tree.parent_index(i as int).is_some() ==> {
            let p = tree.parent_index(i as int).unwrap();
            &&& placed@[p] == transform_of(tree, window, p)
            &&& gaps@[p] == gap_of(tree.node_at(p).style, transform_of(tree, window, p).size)
            &&& forall|k: int|
                0 <= k < tree.rank_of(i as int) ==> placed@[#[trigger] tree.child_indices(p)[k]]
                    == transform_of(tree, window, tree.child_indices(p)[k])
        },
    ensures
        r.0 == transform_of(tree, window, i as int),
        r.1 == gap_of(tree.node_at(i as int).style, r.0.size),
        -MAX_LENGTH <= r.1 <= MAX_LENGTH,
{
    let style = tree.node_by_index(i).style;
    proof {
        tree.lemma_shape();
    }
    let transform = match tree.parent_by_index(i) {
        Some(p) => {
            let parent_style = tree.node_by_index(p).style;
            let row = match parent_style.flex_direction {
                Some(FlexDirection::Col) => false,
                _ => true,
            };
            proof {
                lemma_transform_valid(tree, window, p as int);
                let size = transform_of(tree, window, p as int).size;
                lemma_resolved_range(
                    parent_style.gap,
                    if parent_style.main_axis() == FlexDirection::Row {
                        size.x as int
                    } else {
                        size.y as int
                    },
                );
            }
            let parent_gap = gaps[p];
            let shift = sibling_shift(tree, window, i, p, row, parent_gap, placed);
            place_child(tree, window, i, p, measure, placed[p], shift)
        },
        None => place_root(tree, window, i, measure),
    };
    proof {
        lemma_transform_valid(tree, window, i as int);
    }
    let own_row = match style.flex_direction {
        Some(FlexDirection::Col) => false,
        _ => true,
    };
    let gap = calc_or_zero(
        style.gap,
        if own_row {
            transform.size.x
        } else {
            transform.size.y
        },
    );
    (transform, gap)
}

/// The second phase of the layout: the transform of every node, taken in
/// the processing order, so that every node comes after its parent and
/// after its siblings of lower rank.
pub fn transforms(
    tree: &UITree,
    window: Extent,
    order: &Vec<usize>,
    sizes: &Vec<NodeVirtualSize>,
) -> (placed: Vec<Transform>)
    requires
        tree.wf(),
        window.valid(),
        as_ints(order@) == tree.processing_order(),
        tree.is_processing_order(as_ints(order@)),
        sizes@.len() == tree.len(),
        forall|i: int| 0 <= i < tree.len() ==> (#[trigger] sizes@[i]) == virtual_size(tree, i),
    ensures
        placed@.len() == tree.len(),
        forall|i: int|
            0 <= i < tree.len() ==> (#[trigger] placed@[i]) == transform_of(tree, window, i),
{
    let n = tree.node_count();
    let mut placed: Vec<Transform> = Vec::new();
    let mut gaps: Vec<i64> = Vec::new();
    let mut filled: usize = 0;
    while filled < n
        invariant
            filled <= n,
            placed@.len() == filled,
            gaps@.len() == filled,
        decreases n - filled,
    {
        placed.push(Transform::default());
        gaps.push(0);
        filled += 1;
    }
    proof {
        tree.lemma_processing_order();
        tree.lemma_shape();
        assert(as_ints(order@).len() == order@.len());
    }
    let ghost seq = tree.processing_order();
    let mut done: usize = 0;
    while done < order.len()
        invariant
            tree.wf(),
            window.valid(),
            n == tree.len(),
            placed@.len() == n,
            gaps@.len() == n,
            sizes@.len() == n,
            done <= order@.len(),
            order@.len() == n,
            seq == tree.processing_order(),
            as_ints(order@) == seq,
            seq.len() == n,
            seq.no_duplicates(),
            forall|i: int| 0 <= i < n ==> (#[trigger] sizes@[i]) == virtual_size(tree, i),
            forall|k: int| 0 <= k < n ==> 0 <= (#[trigger] seq[k]) < n,
            forall|i: int| 0 <= i < n ==> seq.contains(i),
            forall|b: int|
                0 <= b < n && tree.parent_index(#[trigger] seq[b]).is_some() ==> exists|a: int|
                    0 <= a < b && seq[a] == tree.parent_index(seq[b]).unwrap(),
            forall|a: int, b: int|
                0 <= a < b < n && tree.parent_index(#[trigger] seq[a]).is_some()
                    && tree.parent_index(seq[a]) == tree.parent_index(#[trigger] seq[b])
                    ==> tree.rank_of(seq[a]) < tree.rank_of(seq[b]),
            forall|a: int, j: int|
                0 <= a < tree.len() && 0 <= j < tree.child_indices(a).len() ==> a < (
                #[trigger] tree.child_indices(a)[j]) < tree.len() && tree.parent_index(
                    tree.child_indices(a)[j],
                ) == Some(a) && tree.rank_of(tree.child_indices(a)[j]) == j,
            forall|i: int|
                0 <= i < tree.len() && (#[trigger] tree.parent_index(i)).is_some() ==> 0
                    <= tree.rank_of(i) < tree.child_indices(tree.parent_index(i).unwrap()).len(),
            forall|pos: int|
                0 <= pos < done ==> placed@[#[trigger] seq[pos]] == transform_of(
                    tree,
                    window,
                    seq[pos],
                ) && gaps@[seq[pos]] == gap_of(
                    tree.node_at(seq[pos]).style,
                    transform_of(tree, window, seq[pos]).size,
                ),
        decreases order@.len() - done,
    {
        let node = order[done];
        assert(seq[done as int] == node);
        proof {
            if tree.parent_index(node as int).is_some() {
                let p = tree.parent_index(node as int).unwrap();
                let up = choose|up: int|
                    0 <= up < done && seq[up] == tree.parent_index(seq[done as int]).unwrap();
                assert(placed@[seq[up]] == transform_of(tree, window, seq[up]));
                assert forall|k: int| 0 <= k < tree.rank_of(node as int) implies placed@[
                #[trigger] tree.child_indices(p)[k]] == transform_of(
                    tree,
                    window,
                    tree.child_indices(p)[k],
                ) by {
                    let s = tree.child_indices(p)[k];
                    assert(tree.parent_index(s) == Some(p));
                    assert(tree.rank_of(s) == k);
                    assert(seq.contains(s));
                    let at = choose|at: int| 0 <= at < seq.len() && seq[at] == s;
                    if at > done {
                        assert(tree.rank_of(seq[done as int]) < tree.rank_of(seq[at]));
                    }
                    assert(at != done);
                    assert(placed@[seq[at]] == transform_of(tree, window, seq[at]));
                }
            }
        }
        let (transform, gap) = place_node(tree, window, node, sizes[node], &placed, &gaps);
        let ghost placed_before = placed@;
        let ghost gaps_before = gaps@;
        placed[node] = transform;
        gaps[node] = gap;
        proof {
            assert forall|pos: int| 0 <= pos < done + 1 implies placed@[#[trigger] seq[pos]]
                == transform_of(tree, window, seq[pos]) && gaps@[seq[pos]] == gap_of(
                tree.node_at(seq[pos]).style,
                transform_of(tree, window, seq[pos]).size,
            ) by {
                if pos < done {
                    assert(seq[pos] != seq[done as int]);
                    assert(placed@[seq[pos]] == placed_before[seq[pos]]);
                    assert(gaps@[seq[pos]] == gaps_before[seq[pos]]);
                }
            }
        }
        done += 1;
    }
    proof {
        assert forall|i: int| 0 <= i < tree.len() implies (#[trigger] placed@[i]) == transform_of(
            tree,
            window,
            i,
        ) by {
            assert(seq.contains(i));
            let at = choose|at: int| 0 <= at < seq.len() && seq[at] == i;
            assert(placed@[seq[at]] == transform_of(tree, window, seq[at]));
        }
    }
    placed
}

/// The layout of the tree in a window of the given size: the transform of
/// every node, by node index.
pub fn solve(tree: &UITree, window: Extent) -> (placed: Vec<Transform>)
    requires
        tree.wf(),
        window.valid(),
    ensures
        placed@.len() == tree.len(),
        forall|i: int|
            0 <= i < tree.len() ==> (#[trigger] placed@[i]) == transform_of(tree, window, i),
{
    let order = tree.toposort_indices();
    let sizes = virtual_sizes(tree, &order);
    transforms(tree, window, &order, &sizes)
}

} // verus!
