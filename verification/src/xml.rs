//! A markup source: a template, the stylesheets that go with it and an
//! optional prefix for the identities of its nodes, held for the reader
//! that builds the tree.

use vstd::prelude::*;

verus! {

/// A template with its stylesheets.
pub struct UIXmlSource {
    template: String,
    style_files_data: Vec<String>,
    prefix: Option<String>,
}

impl UIXmlSource {
    /// The text of the template.
    pub closed spec fn template_text(&self) -> Seq<char> {
        self.template@
    }

    /// The texts of the stylesheets, in the order in which they were added.
    pub closed spec fn style_texts(&self) -> Seq<Seq<char>> {
        self.style_files_data@.map_values(|style: String| style@)
    }

    /// The prefix of the node paths, if one was set.
    pub closed spec fn prefix_text(&self) -> Option<Seq<char>> {
        match self.prefix {
            Some(prefix) => Some(prefix@),
            None => None,
        }
    }

    /// A source with the given template, without stylesheets or prefix.
    pub fn new(template: String) -> (r: UIXmlSource)
        ensures
            r.template_text() == template@,
            r.style_texts() == Seq::<Seq<char>>::empty(),
            r.prefix_text().is_none(),
    {
        let r = UIXmlSource { template, style_files_data: Vec::new(), prefix: None };
        assert(r.style_texts() =~= Seq::<Seq<char>>::empty());
        r
    }

    /// This source with the given prefix in place of any earlier one.
    pub fn add_prefix(self, prefix: String) -> (r: UIXmlSource)
        ensures
            r.template_text() == self.template_text(),
            r.style_texts() == self.style_texts(),
            r.prefix_text() == Some(prefix@),
    {
        let mut source = self;
        source.prefix = Some(prefix);
        source
    }

    /// This source with one more stylesheet, after those it has.
    pub fn add_style(self, style: String) -> (r: UIXmlSource)
        ensures
            r.template_text() == self.template_text(),
            r.style_texts() == self.style_texts().push(style@),
            r.prefix_text() == self.prefix_text(),
    {
        let mut source = self;
        source.style_files_data.push(style);
        assert(source.style_texts() =~= self.style_texts().push(style@));
        source
    }

    /// The text of the template.
    pub fn template(&self) -> (r: &String)
        ensures
            r@ == self.template_text(),
    {
        &self.template
    }

    /// The stylesheets, in the order in which they were added.
    pub fn styles(&self) -> (r: &Vec<String>)
        ensures
            r@.map_values(|style: String| style@) == self.style_texts(),
    {
        &self.style_files_data
    }

    /// The prefix of the node paths, if one was set.
    pub fn prefix(&self) -> (r: &Option<String>)
        ensures
            match *r {
                Some(prefix) => self.prefix_text() == Some(prefix@),
                None => self.prefix_text().is_none(),
            },
    {
        &self.prefix
    }
}

} // verus!
