//! Style values and rule records, and the cascade merge that resolves
//! several records into one.

use vstd::prelude::*;
use vstd::std_specs::convert::FromSpecImpl;
use crate::node::UINodeId;
use crate::view::{ContentBox, Extent};

verus! {

/// The largest magnitude a resolved length can have, in pixels. Every
/// resolved length saturates at this bound.
pub const MAX_LENGTH: i64 = 1_099_511_627_776;

/// The value `x` brought into the range of resolved lengths.
pub open spec fn clamp_length(x: int) -> int {
    if x < -(MAX_LENGTH as int) {
        -(MAX_LENGTH as int)
    } else if x > MAX_LENGTH as int {
        MAX_LENGTH as int
    } else {
        x
    }
}

/// `percent` hundredths of `size`, rounded toward zero.
pub open spec fn percent_of(size: int, percent: int) -> int {
    if size >= 0 {
        (size * percent) / 100
    } else {
        -(((-size) * percent) / 100)
    }
}

/// Half of `size`, rounded toward zero.
pub open spec fn half_of(size: int) -> int {
    if size >= 0 {
        size / 2
    } else {
        -((-size) / 2)
    }
}

/// Half of a length, rounded toward zero.
pub fn half(size: i64) -> (r: i64)
    requires
        -MAX_LENGTH <= size <= MAX_LENGTH,
    ensures
        r == half_of(size as int),
        -MAX_LENGTH <= r <= MAX_LENGTH,
{
    if size >= 0 {
        size / 2
    } else {
        -((-size) / 2)
    }
}

/// A physical or relative length.
#[derive(Debug, Clone, Copy, PartialEq, Eq, Structural)]
pub enum Unit {
    Pixel(u32),
    Percent(u16),
}

impl Unit {
    /// The length this unit stands for against a reference length of
    /// `size`: the pixel count itself, or the percentage of `size`, where a
    /// percentage above 100 counts as 100.
    pub open spec fn resolved(self, size: int) -> int {
        match self {
            Unit::Pixel(px) => px as int,
            Unit::Percent(percent) => percent_of(size, if percent > 100 { 100 } else { percent as int }),
        }
    }

    /// Resolves this unit against the reference length `size`.
    pub fn calc(&self, size: i64) -> (r: i64)
        requires
            -MAX_LENGTH <= size <= MAX_LENGTH,
        ensures
            r == self.resolved(size as int),
            -MAX_LENGTH <= r <= MAX_LENGTH,
    {
        match self {
            Unit::Pixel(px) => *px as i64,
            Unit::Percent(percent) => {
                let p: i64 = if *percent > 100 { 100 } else { *percent as i64 };
                if size >= 0 {
                    assert(0 <= size * p <= MAX_LENGTH * 100) by (nonlinear_arith)
                        requires 0 <= size <= MAX_LENGTH, 0 <= p <= 100;
                    (size * p) / 100
                } else {
                    assert(0 <= (-size) * p <= MAX_LENGTH * 100) by (nonlinear_arith)
                        requires 0 < -size <= MAX_LENGTH, 0 <= p <= 100;
                    -(((-size) * p) / 100)
                }
            },
        }
    }
}

/// How a node's width or height is determined.
#[derive(Debug, Clone, Copy, PartialEq, Eq, Structural)]
pub enum SizeValue {
    /// Fill the available space.
    Auto,
    /// Derive the size from the children.
    FitContent,
    /// An explicit length.
    Unit(Unit),
}

impl Default for SizeValue {
    fn default() -> (r: SizeValue)
        ensures
            r == SizeValue::Auto,
    {
        SizeValue::Auto
    }
}

/// The main axis along which a container places its children.
#[derive(Debug, Clone, Copy, PartialEq, Eq, Structural)]
pub enum FlexDirection {
    Row,
    Col,
}

impl Default for FlexDirection {
    fn default() -> (r: FlexDirection)
        ensures
            r == FlexDirection::Row,
    {
        FlexDirection::Row
    }
}

/// The display mode of a node.
#[derive(Debug, Clone, Copy, PartialEq, Eq, Structural)]
pub enum Display {
    Flex,
}

impl Default for Display {
    fn default() -> (r: Display)
        ensures
            r == Display::Flex,
    {
        Display::Flex
    }
}

/// A colour as red, green and blue.
#[derive(Debug, Clone, Copy, PartialEq, Eq, Hash, Structural)]
pub struct Color {
    pub r: u8,
    pub g: u8,
    pub b: u8,
}

/// The space around a node, side by side.
#[derive(Debug, Clone, Copy, PartialEq, Eq, Structural)]
pub struct Margin {
    pub left: Option<Unit>,
    pub right: Option<Unit>,
    pub bottom: Option<Unit>,
    pub top: Option<Unit>,
}

impl Margin {
    /// A margin with no side set.
    pub fn new() -> (r: Margin)
        ensures
            r == (Margin { left: None, right: None, bottom: None, top: None }),
    {
        Margin { left: None, right: None, bottom: None, top: None }
    }

    /// This margin with the sides that `over` sets taken from `over`.
    pub open spec fn overlaid(self, over: Margin) -> Margin {
        Margin {
            left: later(self.left, over.left),
            right: later(self.right, over.right),
            bottom: later(self.bottom, over.bottom),
            top: later(self.top, over.top),
        }
    }
}

impl Default for Margin {
    fn default() -> (r: Margin)
        ensures
            r == (Margin { left: None, right: None, bottom: None, top: None }),
    {
        Margin::new()
    }
}

/// The space between a node's border and its content, side by side.
#[derive(Debug, Clone, Copy, PartialEq, Eq, Structural)]
pub struct Padding {
    pub left: Option<Unit>,
    pub right: Option<Unit>,
    pub bottom: Option<Unit>,
    pub top: Option<Unit>,
}

impl Padding {
    /// A padding with no side set.
    pub fn new() -> (r: Padding)
        ensures
            r == (Padding { left: None, right: None, bottom: None, top: None }),
    {
        Padding { left: None, right: None, bottom: None, top: None }
    }

    /// This padding with the sides that `over` sets taken from `over`.
    pub open spec fn overlaid(self, over: Padding) -> Padding {
        Padding {
            left: later(self.left, over.left),
            right: later(self.right, over.right),
            bottom: later(self.bottom, over.bottom),
            top: later(self.top, over.top),
        }
    }
}

impl Default for Padding {
    fn default() -> (r: Padding)
        ensures
            r == (Padding { left: None, right: None, bottom: None, top: None }),
    {
        Padding::new()
    }
}

/// The value of one field after a later record has been merged over an
/// earlier one: the later value where the later record sets the field, the
/// earlier value where it does not.
pub open spec fn later<T>(earlier: Option<T>, over: Option<T>) -> Option<T> {
    if over.is_some() {
        over
    } else {
        earlier
    }
}

/// The length of an optional unit against `size`; an unset unit is zero.
pub open spec fn resolved_or_zero(unit: Option<Unit>, size: int) -> int {
    match unit {
        Some(u) => u.resolved(size),
        None => 0,
    }
}

/// A unit taken against a length within the range of resolved lengths is
/// within that range.
pub proof fn lemma_resolved_range(unit: Option<Unit>, size: int)
    requires
        -MAX_LENGTH <= size <= MAX_LENGTH,
    ensures
        -MAX_LENGTH <= resolved_or_zero(unit, size) <= MAX_LENGTH,
{
    match unit {
        Some(Unit::Percent(percent)) => {
            let p: int = if percent > 100 {
                100
            } else {
                percent as int
            };
            if size >= 0 {
                assert(0 <= (size * p) / 100 <= size) by (nonlinear_arith)
                    requires
                        0 <= size,
                        0 <= p <= 100,
                ;
            } else {
                assert(0 <= ((-size) * p) / 100 <= -size) by (nonlinear_arith)
                    requires
                        0 <= -size,
                        0 <= p <= 100,
                ;
            }
        },
        _ => {},
    }
}

/// Resolves an optional unit against `size`; an unset unit is zero.
pub fn calc_or_zero(unit: Option<Unit>, size: i64) -> (r: i64)
    requires
        -MAX_LENGTH <= size <= MAX_LENGTH,
    ensures
        r == resolved_or_zero(unit, size as int),
        -MAX_LENGTH <= r <= MAX_LENGTH,
{
    match unit {
        Some(u) => u.calc(size),
        None => 0,
    }
}

/// Brings a length into the range of resolved lengths.
pub fn clamp(x: i64) -> (r: i64)
    ensures
        r == clamp_length(x as int),
        -MAX_LENGTH <= r <= MAX_LENGTH,
{
    if x < -MAX_LENGTH {
        -MAX_LENGTH
    } else if x > MAX_LENGTH {
        MAX_LENGTH
    } else {
        x
    }
}

/// A record of style rules. A field that is `None` is not set by the record.
#[derive(Debug, Clone, Copy, PartialEq, Eq, Structural)]
pub struct UIStyleRules {
    pub display: Option<Display>,
    pub background_color: Option<Color>,
    pub flex_direction: Option<FlexDirection>,
    pub gap: Option<Unit>,
    pub margin: Margin,
    pub padding: Padding,
    pub width: Option<SizeValue>,
    pub height: Option<SizeValue>,
}

impl Default for UIStyleRules {
    fn default() -> (r: UIStyleRules)
        ensures
            r == UIStyleRules::unset(),
    {
        UIStyleRules::new()
    }
}

impl UIStyleRules {
    /// The record that sets no field.
    pub open spec fn unset() -> UIStyleRules {
        UIStyleRules {
            display: None,
            background_color: None,
            flex_direction: None,
            gap: None,
            margin: Margin { left: None, right: None, bottom: None, top: None },
            padding: Padding { left: None, right: None, bottom: None, top: None },
            width: None,
            height: None,
        }
    }

    /// The record that sets no field.
    pub fn new() -> (r: UIStyleRules)
        ensures
            r == UIStyleRules::unset(),
    {
        UIStyleRules {
            display: None,
            background_color: None,
            flex_direction: None,
            gap: None,
            margin: Margin::new(),
            padding: Padding::new(),
            width: None,
            height: None,
        }
    }

    /// This record with every field that `over` sets taken from `over`.
    pub open spec fn overlaid(self, over: UIStyleRules) -> UIStyleRules {
        UIStyleRules {
            display: later(self.display, over.display),
            background_color: later(self.background_color, over.background_color),
            flex_direction: later(self.flex_direction, over.flex_direction),
            gap: later(self.gap, over.gap),
            margin: self.margin.overlaid(over.margin),
            padding: self.padding.overlaid(over.padding),
            width: later(self.width, over.width),
            height: later(self.height, over.height),
        }
    }

    /// The records of `styles` merged in order over the unset record: per
    /// field, the value of the last record that sets it.
    pub open spec fn merged(styles: Seq<UIStyleRules>) -> UIStyleRules
        decreases styles.len(),
    {
        if styles.len() == 0 {
            UIStyleRules::unset()
        } else {
            UIStyleRules::merged(styles.drop_last()).overlaid(styles.last())
        }
    }

    /// The main axis of a node with this style: a row unless set otherwise.
    pub open spec fn main_axis(self) -> FlexDirection {
        match self.flex_direction {
            Some(d) => d,
            None => FlexDirection::Row,
        }
    }

    /// The width rule of a node with this style: automatic unless set.
    pub open spec fn width_rule(self) -> SizeValue {
        match self.width {
            Some(w) => w,
            None => SizeValue::Auto,
        }
    }

    /// The height rule of a node with this style: automatic unless set.
    pub open spec fn height_rule(self) -> SizeValue {
        match self.height {
            Some(h) => h,
            None => SizeValue::Auto,
        }
    }

    /// The distances from a node's centre to the four sides of its outer
    /// box: half the node's size plus the margin of that side. The left and
    /// top halves are rounded toward zero and the right and bottom halves
    /// take the rest, so that the two halves add up to the size. Margins in
    /// percent are taken of the parent's content size.
    pub open spec fn outer_box(self, size: Extent, parent_size: Extent) -> ContentBox {
        ContentBox {
            left: clamp_length(half_of(size.x as int) + resolved_or_zero(self.margin.left, parent_size.x as int)) as i64,
            right: clamp_length(size.x - half_of(size.x as int) + resolved_or_zero(self.margin.right, parent_size.x as int)) as i64,
            top: clamp_length(half_of(size.y as int) + resolved_or_zero(self.margin.top, parent_size.y as int)) as i64,
            bottom: clamp_length(size.y - half_of(size.y as int) + resolved_or_zero(self.margin.bottom, parent_size.y as int)) as i64,
        }
    }

    /// The distances from a node's centre to the four sides of its content
    /// box: half the node's size less the padding of that side. Paddings in
    /// percent are taken of the parent's content size.
    pub open spec fn content_box(self, size: Extent, parent_size: Extent) -> ContentBox {
        ContentBox {
            left: clamp_length(half_of(size.x as int) - resolved_or_zero(self.padding.left, parent_size.x as int)) as i64,
            right: clamp_length(size.x - half_of(size.x as int) - resolved_or_zero(self.padding.right, parent_size.x as int)) as i64,
            top: clamp_length(half_of(size.y as int) - resolved_or_zero(self.padding.top, parent_size.y as int)) as i64,
            bottom: clamp_length(size.y - half_of(size.y as int) - resolved_or_zero(self.padding.bottom, parent_size.y as int)) as i64,
        }
    }

    /// Merges `over` into this record.
    pub fn overlay(&self, over: &UIStyleRules) -> (r: UIStyleRules)
        ensures
            r == self.overlaid(*over),
    {
        UIStyleRules {
            display: if over.display.is_some() { over.display } else { self.display },
            background_color: if over.background_color.is_some() { over.background_color } else { self.background_color },
            flex_direction: if over.flex_direction.is_some() { over.flex_direction } else { self.flex_direction },
            gap: if over.gap.is_some() { over.gap } else { self.gap },
            margin: Margin {
                left: if over.margin.left.is_some() { over.margin.left } else { self.margin.left },
                right: if over.margin.right.is_some() { over.margin.right } else { self.margin.right },
                bottom: if over.margin.bottom.is_some() { over.margin.bottom } else { self.margin.bottom },
                top: if over.margin.top.is_some() { over.margin.top } else { self.margin.top },
            },
            padding: Padding {
                left: if over.padding.left.is_some() { over.padding.left } else { self.padding.left },
                right: if over.padding.right.is_some() { over.padding.right } else { self.padding.right },
                bottom: if over.padding.bottom.is_some() { over.padding.bottom } else { self.padding.bottom },
                top: if over.padding.top.is_some() { over.padding.top } else { self.padding.top },
            },
            width: if over.width.is_some() { over.width } else { self.width },
            height: if over.height.is_some() { over.height } else { self.height },
        }
    }

    /// Resolves a list of records into one: starting from the unset record,
    /// each record in turn overrides the fields it sets.
    pub fn merge(styles: &Vec<UIStyleRules>) -> (r: UIStyleRules)
        ensures
            r == UIStyleRules::merged(styles@),
    {
        let mut merged_style = UIStyleRules::new();
        let mut i: usize = 0;
        while i < styles.len()
            invariant
                i <= styles.len(),
                merged_style == UIStyleRules::merged(styles@.take(i as int)),
            decreases styles.len() - i,
        {
            proof {
                assert(styles@.take(i + 1).drop_last() =~= styles@.take(i as int));
            }
            merged_style = merged_style.overlay(&styles[i]);
            i += 1;
        }
        proof {
            assert(styles@.take(i as int) =~= styles@);
        }
        merged_style
    }

    /// The distances from the centre of a node of the given size to the
    /// sides of its outer box.
    pub fn calc_outer_box(&self, size: Extent, parent_size: Extent) -> (r: ContentBox)
        requires
            size.valid(),
            parent_size.valid(),
        ensures
            r == self.outer_box(size, parent_size),
            r.valid(),
    {
        let half_width = half(size.x);
        let half_height = half(size.y);
        ContentBox {
            left: clamp(half_width + calc_or_zero(self.margin.left, parent_size.x)),
            right: clamp(size.x - half_width + calc_or_zero(self.margin.right, parent_size.x)),
            top: clamp(half_height + calc_or_zero(self.margin.top, parent_size.y)),
            bottom: clamp(size.y - half_height + calc_or_zero(self.margin.bottom, parent_size.y)),
        }
    }

    /// The distances from the centre of a node of the given size to the
    /// sides of its content box.
    pub fn calc_content_box(&self, size: Extent, parent_size: Extent) -> (r: ContentBox)
        requires
            size.valid(),
            parent_size.valid(),
        ensures
            r == self.content_box(size, parent_size),
            r.valid(),
    {
        let half_width = half(size.x);
        let half_height = half(size.y);
        ContentBox {
            left: clamp(half_width - calc_or_zero(self.padding.left, parent_size.x)),
            right: clamp(size.x - half_width - calc_or_zero(self.padding.right, parent_size.x)),
            top: clamp(half_height - calc_or_zero(self.padding.top, parent_size.y)),
            bottom: clamp(size.y - half_height - calc_or_zero(self.padding.bottom, parent_size.y)),
        }
    }
}

/// The name of one source of style rules.
#[derive(Debug, Clone, PartialEq, Eq, Hash)]
pub struct UIStyleId(pub String);

impl View for UIStyleId {
    type V = Seq<char>;

    open spec fn view(&self) -> Seq<char> {
        self.0@
    }
}

impl From<&str> for UIStyleId {
    fn from(value: &str) -> (r: UIStyleId) {
        UIStyleId(value.to_owned())
    }
}

impl FromSpecImpl<&str> for UIStyleId {
    open spec fn obeys_from_spec() -> bool {
        false
    }

    open spec fn from_spec(value: &str) -> UIStyleId {
        arbitrary()
    }
}

impl UIStyleId {
    /// The style source of the given name.
    pub fn named(name: &str) -> (r: UIStyleId)
        ensures
            r@ == name@,
    {
        UIStyleId(name.to_owned())
    }
}

impl From<String> for UIStyleId {
    fn from(value: String) -> (r: UIStyleId) {
        UIStyleId(value)
    }
}

impl FromSpecImpl<String> for UIStyleId {
    open spec fn obeys_from_spec() -> bool {
        true
    }

    open spec fn from_spec(value: String) -> UIStyleId {
        UIStyleId(value)
    }
}

/// One record of rules, as a style source gives it for a class.
#[derive(Debug, Clone, PartialEq, Eq)]
pub struct UIStyle {
    pub id: UIStyleId,
    pub class: String,
    pub rules: UIStyleRules,
}

/// The first position in `ids` that holds `id`, or the length of `ids`.
pub open spec fn position_of(ids: Seq<Seq<char>>, id: Seq<char>) -> int
    decreases ids.len(),
{
    if ids.len() == 0 {
        0
    } else if ids.first() == id {
        0
    } else {
        1 + position_of(ids.drop_first(), id)
    }
}

/// `position_of` is a position up to the length; below the length it holds
/// `id` and nothing before it does; at the length nothing holds `id`.
pub proof fn lemma_position_of(ids: Seq<Seq<char>>, id: Seq<char>)
    ensures
        0 <= position_of(ids, id) <= ids.len(),
        position_of(ids, id) < ids.len() ==> ids[position_of(ids, id)] == id,
        forall|k: int| 0 <= k < position_of(ids, id) ==> ids[k] != id,
    decreases ids.len(),
{
    if ids.len() > 0 && ids.first() != id {
        lemma_position_of(ids.drop_first(), id);
        let p = position_of(ids.drop_first(), id);
        assert forall|k: int| 0 <= k < 1 + p implies ids[k] != id by {
            if k > 0 {
                assert(ids.drop_first()[k - 1] == ids[k]);
            }
        }
    }
}

/// A position below that of `id` in a list is the position of `id` in a
/// longer list that starts with that list.
pub proof fn lemma_position_of_prefix(ids: Seq<Seq<char>>, longer: Seq<Seq<char>>, id: Seq<char>)
    requires
        ids.len() <= longer.len(),
        forall|k: int| 0 <= k < ids.len() ==> ids[k] == longer[k],
        position_of(ids, id) < ids.len(),
    ensures
        position_of(longer, id) == position_of(ids, id),
    decreases ids.len(),
{
    if ids.len() > 0 && ids.first() != id {
        assert forall|k: int| 0 <= k < ids.drop_first().len() implies ids.drop_first()[k]
            == longer.drop_first()[k] by {
            assert(ids[k + 1] == longer[k + 1]);
        }
        lemma_position_of_prefix(ids.drop_first(), longer.drop_first(), id);
    }
}

/// In a list without repetitions, each entry is at its own position.
pub proof fn lemma_position_of_entry(ids: Seq<Seq<char>>, at: int)
    requires
        ids.no_duplicates(),
        0 <= at < ids.len(),
    ensures
        position_of(ids, ids[at]) == at,
{
    lemma_position_of(ids, ids[at]);
    let p = position_of(ids, ids[at]);
    if p < at {
        assert(ids[p] == ids[at]);
    }
}

/// The sources of a class after the source `id` has given a record.
pub open spec fn sources_with(ids: Seq<Seq<char>>, id: Seq<char>) -> Seq<Seq<char>> {
    if position_of(ids, id) < ids.len() {
        ids
    } else {
        ids.push(id)
    }
}

/// The records of a class after the source `id` has given the record
/// `rule`: in place of the one it gave before, or after all others.
pub open spec fn rules_with(
    ids: Seq<Seq<char>>,
    rules: Seq<UIStyleRules>,
    id: Seq<char>,
    rule: UIStyleRules,
) -> Seq<UIStyleRules> {
    let at = position_of(ids, id);
    if 0 <= at < rules.len() {
        rules.update(at, rule)
    } else {
        rules.push(rule)
    }
}

/// A class: the nodes that reference it and the rule records given for it,
/// one per style source, in the order in which the sources first gave one.
#[derive(Debug, Clone)]
pub struct StyleClass {
    pub node_ids: Vec<UINodeId>,
    pub rule_ids: Vec<UIStyleId>,
    pub rules: Vec<UIStyleRules>,
}

impl Default for StyleClass {
    fn default() -> (r: StyleClass)
        ensures
            r.wf(),
            r.node_ids@ == Seq::<UINodeId>::empty(),
            r.rules@ == Seq::<UIStyleRules>::empty(),
    {
        StyleClass::new()
    }
}

impl StyleClass {
    /// The names of the sources of the records, in order.
    pub open spec fn source_ids(&self) -> Seq<Seq<char>> {
        self.rule_ids@.map_values(|id: UIStyleId| id@)
    }

    /// Every record has its source, and no source has two records.
    pub open spec fn wf(&self) -> bool {
        &&& self.rule_ids@.len() == self.rules@.len()
        &&& self.source_ids().no_duplicates()
    }

    /// A class without nodes and without records.
    pub fn new() -> (r: StyleClass)
        ensures
            r.wf(),
            r.node_ids@ == Seq::<UINodeId>::empty(),
            r.rules@ == Seq::<UIStyleRules>::empty(),
            r.source_ids() == Seq::<Seq<char>>::empty(),
    {
        let r = StyleClass { node_ids: Vec::new(), rule_ids: Vec::new(), rules: Vec::new() };
        assert(r.source_ids() =~= Seq::<Seq<char>>::empty());
        r
    }

    /// Gives the class the record `rule` from the source `id`: in place of
    /// the record that source gave before, or after all others if it gave
    /// none.
    pub fn add_styles(&mut self, id: UIStyleId, rule: UIStyleRules)
        requires
            old(self).wf(),
        ensures
            final(self).wf(),
            final(self).node_ids == old(self).node_ids,
            final(self).source_ids() == sources_with(old(self).source_ids(), id@),
            final(self).rules@ == rules_with(old(self).source_ids(), old(self).rules@, id@, rule),
    {
        let ghost ids = self.source_ids();
        proof {
            lemma_position_of(ids, id@);
        }
        let mut i: usize = 0;
        while i < self.rule_ids.len()
            invariant
                *self == *old(self),
                self.wf(),
                ids == self.source_ids(),
                i <= self.rule_ids.len(),
                forall|k: int| 0 <= k < i ==> ids[k] != id@,
            decreases self.rule_ids.len() - i,
        {
            assert(ids[i as int] == self.rule_ids@[i as int]@);
            if self.rule_ids[i].0 == id.0 {
                proof {
                    lemma_position_of(ids, id@);
                    let at = position_of(ids, id@);
                    assert(at == i) by {
                        if at < i {
                            assert(ids[at] != id@);
                        }
                    }
                }
                self.rules[i] = rule;
                assert(self.source_ids() =~= ids);
                return ;
            }
            i += 1;
        }
        proof {
            lemma_position_of(ids, id@);
            let at = position_of(ids, id@);
            assert(at == ids.len()) by {
                if at < ids.len() {
                    assert(ids[at] == id@);
                }
            }
        }
        self.rule_ids.push(id);
        self.rules.push(rule);
        proof {
            assert(self.source_ids() =~= ids.push(id@));
            assert forall|a: int, b: int|
                0 <= a < self.source_ids().len() && 0 <= b < self.source_ids().len() && a
                    != b implies self.source_ids()[a] != self.source_ids()[b] by {
                if a < ids.len() && b < ids.len() {
                    assert(ids[a] != ids[b]);
                }
            }
        }
    }

    /// Records that the node `id` references the class.
    pub fn add_node(&mut self, id: UINodeId)
        ensures
            final(self).node_ids@ == old(self).node_ids@.push(id),
            final(self).rule_ids == old(self).rule_ids,
            final(self).rules == old(self).rules,
    {
        self.node_ids.push(id);
    }

    /// The nodes that reference the class, in the order in which they were
    /// added.
    pub fn node_ids(&self) -> (r: &Vec<UINodeId>)
        ensures
            *r == self.node_ids,
    {
        &self.node_ids
    }

    /// The rule records of the class, in order.
    pub fn styles(&self) -> (r: &Vec<UIStyleRules>)
        ensures
            *r == self.rules,
    {
        &self.rules
    }
}

/// Merging a record over a result that already holds it changes nothing.
pub proof fn lemma_overlay_idempotent(base: UIStyleRules, record: UIStyleRules)
    ensures
        base.overlaid(record).overlaid(record) == base.overlaid(record),
{
}

/// Merging the same record twice in a row resolves to what merging it once
/// resolves to.
pub proof fn lemma_merge_idempotent(styles: Seq<UIStyleRules>, record: UIStyleRules)
    ensures
        UIStyleRules::merged(styles.push(record).push(record)) == UIStyleRules::merged(
            styles.push(record),
        ),
{
    let once = styles.push(record);
    let twice = once.push(record);
    assert(twice.drop_last() =~= once);
    assert(once.drop_last() =~= styles);
    lemma_overlay_idempotent(UIStyleRules::merged(styles), record);
}

/// Of two records merged in order, the second decides every field it sets,
/// and the first keeps every field the second leaves unset.
pub proof fn lemma_merge_override(first: UIStyleRules, second: UIStyleRules)
    ensures
        ({
            let m = UIStyleRules::merged(seq![first, second]);
            &&& m.display == later(first.display, second.display)
            &&& m.background_color == later(first.background_color, second.background_color)
            &&& m.flex_direction == later(first.flex_direction, second.flex_direction)
            &&& m.gap == later(first.gap, second.gap)
            &&& m.margin.left == later(first.margin.left, second.margin.left)
            &&& m.margin.right == later(first.margin.right, second.margin.right)
            &&& m.margin.top == later(first.margin.top, second.margin.top)
            &&& m.margin.bottom == later(first.margin.bottom, second.margin.bottom)
            &&& m.padding.left == later(first.padding.left, second.padding.left)
            &&& m.padding.right == later(first.padding.right, second.padding.right)
            &&& m.padding.top == later(first.padding.top, second.padding.top)
            &&& m.padding.bottom == later(first.padding.bottom, second.padding.bottom)
            &&& m.width == later(first.width, second.width)
            &&& m.height == later(first.height, second.height)
        }),
{
    let both = seq![first, second];
    assert(both.drop_last() =~= seq![first]);
    assert(seq![first].drop_last() =~= Seq::<UIStyleRules>::empty());
    assert(both.last() == second);
    assert(seq![first].last() == first);
    assert(UIStyleRules::merged(Seq::<UIStyleRules>::empty()) == UIStyleRules::unset());
    assert(UIStyleRules::merged(seq![first]) == UIStyleRules::unset().overlaid(first));
}

/// The record merged last decides every field it sets, whatever was
/// merged before it, and leaves every other field as the records before it
/// resolved it.
pub proof fn lemma_merge_last_wins(styles: Seq<UIStyleRules>, last: UIStyleRules)
    ensures
        UIStyleRules::merged(styles.push(last)) == UIStyleRules::merged(styles).overlaid(last),
{
    assert(styles.push(last).drop_last() =~= styles);
}

} // verus!
