//! The places where the interface meets the engine around it: what the
//! engine registers, and the renderers and sources it names.

use vstd::prelude::*;

verus! {

/// Registers what rendering depends on.
pub trait IRenderDependencies {
    /// Registers the services of the renderer.
    fn register_render_dependencies(&self);
}

/// Registers what the layer system depends on.
pub trait ILayersSystemDependencies {
    /// Registers the services of the layer system.
    fn register_layers_system_dependencies(&self);
}

/// The layers of the renderer, as a source of layers.
#[derive(Debug, Clone, Copy, PartialEq, Eq, Structural)]
pub struct RenderLayers;

/// Renders a view into commands.
#[derive(Debug, Clone, Copy, PartialEq, Eq, Structural)]
pub struct UIViewRender {}

impl UIViewRender {
    /// A renderer. It holds no state.
    pub fn new() -> (r: UIViewRender)
        ensures
            r == (UIViewRender {  }),
    {
        UIViewRender {  }
    }
}

/// Writes a view to a writer of shapes.
#[derive(Debug, Clone, Copy, PartialEq, Eq, Structural)]
pub struct UIViewRenderWriter {}

/// Reads markup into a partial tree.
#[derive(Debug, Clone, Copy, PartialEq, Eq, Structural)]
pub struct XmlSource {}

/// A button with its label.
#[derive(Debug)]
pub struct ButtonComponent {
    text: String,
}

impl ButtonComponent {
    /// The text of the label.
    pub closed spec fn label(&self) -> Seq<char> {
        self.text@
    }

    /// A button with the given label.
    pub fn new(text: String) -> (r: ButtonComponent)
        ensures
            r.label() == text@,
    {
        ButtonComponent { text }
    }

    /// The text of the label.
    pub fn text(&self) -> (r: &str)
        ensures
            r@ == self.label(),
    {
        self.text.as_str()
    }
}

impl Default for ButtonComponent {
    fn default() -> (r: ButtonComponent)
        ensures
            r.label() == Seq::<char>::empty(),
    {
        ButtonComponent { text: String::new() }
    }
}

} // verus!
