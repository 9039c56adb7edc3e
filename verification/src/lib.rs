//! Layout and styling engine for a declarative user interface.
//!
//! A [`tree::UITree`] holds the nodes, the parent-to-child edges with their
//! sibling ranks, and the classes with their rule records. The cascade
//! resolves the style of every node as the merge of the records of its
//! classes ([`style::UIStyleRules::merge`]). The solver in [`layout`] gives
//! every node a transform in two phases: virtual sizes from the leaves up,
//! positions from the roots down. A [`view::UIView`] caches the transforms
//! between passes, stamps those that change, and keeps the spatial index
//! of [`rtree`] in step with them. [`draw`] turns a solved tree into
//! shapes, and [`splice`] replaces what lies under a container. [`css`]
//! reads rule records from the tokens of a stylesheet. [`input`] and
//! [`engine`] name the devices and the places where the interface meets
//! the engine around it.
//!
//! Lengths are whole pixels. Resolved lengths saturate at
//! [`style::MAX_LENGTH`]; division rounds toward zero.

pub mod algo;
pub mod component;
pub mod css;
pub mod draw;
pub mod engine;
pub mod error;
pub mod graph;
pub mod input;
pub mod layout;
pub mod node;
pub mod rtree;
pub mod splice;
pub mod style;
pub mod tree;
pub mod view;
pub mod xml;
