//! Selectors: predicates over elements that decide whether a rule block
//! applies. A selector is a list of components that must all match, and a
//! component matches an element by its tag name, exactly and with case.

use vstd::prelude::*;
use vstd::string::*;
use crate::tree_generation_2::{ElementView, HTMLElement};

verus! {

/// What a component holds.
pub enum ComponentView {
    TagName(Seq<char>),
}

/// One condition of a selector.
#[derive(Debug)]
pub enum SelectorComponent {
    /// The element's tag name is the given one.
    TagName(String),
}

impl View for SelectorComponent {
    type V = ComponentView;

    open spec fn view(&self) -> ComponentView {
        match self {
            SelectorComponent::TagName(name) => ComponentView::TagName(name@),
        }
    }
}

/// Whether the element meets the component.
pub open spec fn component_matches(component: ComponentView, element: ElementView) -> bool {
    match component {
        ComponentView::TagName(name) => element.tagname == name,
    }
}

/// Whether the element meets every component.
pub open spec fn selector_matches(components: Seq<ComponentView>, element: ElementView) -> bool {
    forall|i: int| 0 <= i < components.len() ==> component_matches(#[trigger] components[i], element)
}

impl SelectorComponent {
    /// Whether the element meets this component.
    pub fn matches(&self, element: &HTMLElement) -> (met: bool)
        ensures
            met == component_matches(self@, element@),
    {
        match self {
            SelectorComponent::TagName(name) => element.is_tag(name),
        }
    }
}

/// A conjunction of components. The empty selector matches every element.
#[derive(Debug)]
pub struct Selector {
    components: Vec<SelectorComponent>,
}

impl View for Selector {
    type V = Seq<ComponentView>;

    closed spec fn view(&self) -> Seq<ComponentView> {
        Seq::new(self.components@.len(), |i: int| self.components@[i]@)
    }
}

/// What a list of components holds.
pub open spec fn components_view(components: Seq<SelectorComponent>) -> Seq<ComponentView> {
    Seq::new(components.len(), |i: int| components[i]@)
}

/// The selector that the text of a rule block's selector stands for: one
/// component, which takes the whole text as a tag name.
pub open spec fn selector_of_text(text: Seq<char>) -> Seq<ComponentView> {
    seq![ComponentView::TagName(text)]
}

impl Selector {
    /// The selector with the given components.
    pub fn new(components: Vec<SelectorComponent>) -> (selector: Selector)
        ensures
            selector@ == components_view(components@),
    {
        Selector { components }
    }

    /// Whether the element meets every component of the selector.
    pub fn matches(&self, element: &HTMLElement) -> (met: bool)
        ensures
            met == selector_matches(self@, element@),
    {
        let mut i: usize = 0;
        while i < self.components.len()
            invariant
                i <= self.components@.len(),
                forall|j: int| 0 <= j < i ==> component_matches(#[trigger] self@[j], element@),
            decreases self.components@.len() - i,
        {
            if !self.components[i].matches(element) {
                assert(!component_matches(self@[i as int], element@));
                return false;
            }
            i += 1;
        }
        true
    }

    /// The selector that `text` stands for. Every text is a selector.
    pub fn parse(text: &str) -> (selector: Selector)
        ensures
            selector@ == selector_of_text(text@),
    {
        let mut components: Vec<SelectorComponent> = Vec::new();
        components.push(SelectorComponent::TagName(String::from_str(text)));
        let selector = Selector::new(components);
        proof {
            assert(selector@ =~= selector_of_text(text@));
        }
        selector
    }
}

/// The error of reading a selector. No text gives it.
#[derive(Debug)]
pub struct SelectorParseError {}

impl std::str::FromStr for Selector {
    type Err = SelectorParseError;

    fn from_str(s: &str) -> (selector: Result<Selector, SelectorParseError>)
        ensures
            selector matches Ok(read) && read@ == selector_of_text(s@),
    {
        Ok(Selector::parse(s))
    }
}

} // verus!
