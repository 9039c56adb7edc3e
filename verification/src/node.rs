//! Nodes of the interface tree and their identities.

use vstd::prelude::*;
use vstd::std_specs::convert::FromSpecImpl;
use crate::style::UIStyleRules;

verus! {

/// The identity of a node: an opaque number, fixed when the node is made.
#[derive(Debug, Clone, Copy, PartialEq, Eq, Hash, Structural)]
pub struct UINodeId(pub u64);

/// `ahash::RandomState::hash_one` on a `RandomState` made for this one
/// call. Every such state has keys of its own, so nothing is promised of
/// the number: the same text may hash differently each time.
#[verifier::external_body]
fn hash_with_fresh_state(value: &str) -> (h: u64) {
    ahash::RandomState::default().hash_one(value)
}

impl UINodeId {
    /// The identity with the given number.
    pub fn from_hash(hash: u64) -> (r: UINodeId)
        ensures
            r == UINodeId(hash),
    {
        UINodeId(hash)
    }

    /// The number behind this identity.
    pub fn hash_value(&self) -> (r: u64)
        ensures
            r == self.0,
    {
        self.0
    }
}

impl From<&str> for UINodeId {
    /// A fresh identity for the node at the given path. The number is drawn
    /// from a hasher with keys of its own, so it is no function of the path.
    fn from(value: &str) -> (r: UINodeId) {
        UINodeId(hash_with_fresh_state(value))
    }
}

impl FromSpecImpl<&str> for UINodeId {
    open spec fn obeys_from_spec() -> bool {
        false
    }

    open spec fn from_spec(value: &str) -> UINodeId {
        arbitrary()
    }
}

impl From<String> for UINodeId {
    /// A fresh identity for the node at the given path.
    fn from(value: String) -> (r: UINodeId) {
        UINodeId(hash_with_fresh_state(value.as_str()))
    }
}

impl FromSpecImpl<String> for UINodeId {
    open spec fn obeys_from_spec() -> bool {
        false
    }

    open spec fn from_spec(value: String) -> UINodeId {
        arbitrary()
    }
}

/// What a node is.
#[derive(Debug, Clone, PartialEq, Eq)]
pub enum UINodeKind {
    /// A container.
    Div,
    /// A tag this engine does not know, kept by name.
    Unknown(String),
}

/// A node of the tree: its identity, kind, class memberships and resolved
/// style.
#[derive(Debug, Clone)]
pub struct UINode {
    pub id: UINodeId,
    pub kind: UINodeKind,
    pub classes: Vec<String>,
    pub style: UIStyleRules,
}

impl UINode {
    /// The names of the classes the node belongs to, as texts.
    pub open spec fn class_names(&self) -> Seq<Seq<char>> {
        self.classes@.map_values(|name: String| name@)
    }

    /// A node with the unset style. The tree keeps the parent relation, so
    /// `parent` is not stored.
    pub fn new(id: UINodeId, kind: UINodeKind, classes: Vec<String>, parent: Option<UINodeId>) -> (r:
        UINode)
        ensures
            r.id == id,
            r.kind == kind,
            r.classes == classes,
            r.style == UIStyleRules::unset(),
    {
        UINode { id, kind, classes, style: UIStyleRules::new() }
    }

    /// The node's identity.
    pub fn id(&self) -> (r: &UINodeId)
        ensures
            *r == self.id,
    {
        &self.id
    }

    /// The names of the classes the node belongs to.
    pub fn classes(&self) -> (r: &Vec<String>)
        ensures
            *r == self.classes,
    {
        &self.classes
    }

    /// The node's resolved style.
    pub fn style(&self) -> (r: &UIStyleRules)
        ensures
            *r == self.style,
    {
        &self.style
    }

    /// Replaces the node's resolved style.
    pub fn set_style(&mut self, style: UIStyleRules)
        ensures
            final(self).style == style,
            final(self).id == old(self).id,
            final(self).kind == old(self).kind,
            final(self).classes == old(self).classes,
    {
        self.style = style;
    }

    /// Whether the node's tag is one this engine does not know.
    pub fn is_unknown_kind(&self) -> (r: bool)
        ensures
            r == (self.kind is Unknown),
    {
        match self.kind {
            UINodeKind::Unknown(_) => true,
            UINodeKind::Div => false,
        }
    }
}

} // verus!
