//! Components: named templates with their stylesheets.

use vstd::prelude::*;

verus! {

/// A component's name, template and stylesheets.
pub trait IComponentTemplate {
    /// The name under which the component is registered.
    fn name(&self) -> String;

    /// The markup of the component.
    fn template(&self) -> String;

    /// The stylesheets of the component.
    fn styles(&self) -> Vec<String>;
}

/// What a component must offer to be built from.
pub trait IComponentTemplateFactory: IComponentTemplate {

}

/// Builds the template and the stylesheets of one component.
pub struct ComponentFactory<T: IComponentTemplateFactory> {
    component_template: T,
}

impl<T: IComponentTemplateFactory> ComponentFactory<T> {
    /// A factory for the given component.
    pub fn new(component_template: T) -> (r: ComponentFactory<T>)
        ensures r.component() == component_template,
    {
        ComponentFactory { component_template }
    }
    /// The markup of the component: what its `template` returns.
    pub fn build_template(&self) -> (r: String)
        ensures call_ensures(T::template, (&self.component(),), r),
    { self.component_template.template() }

    /// The stylesheets of the component: what its `styles` returns.
    pub fn build_styles(&self) -> (r: Vec<String>)
        ensures
            call_ensures(T::styles, (&self.component(),), r),
    {
        self.component_template.styles()
    }

    /// The component the factory builds from.
    pub closed spec fn component(&self) -> T {
        self.component_template
    }
}

} // verus!
