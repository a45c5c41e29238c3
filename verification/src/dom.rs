//! The styled document: the nodes that carry style, and the cascade that
//! merges an element's inline declarations, the stylesheet declarations
//! that match it and the values of its ancestors into one style.
//!
//! The cascade has two phases. `prepare` fills an element's own mapping:
//! inline declarations first, then stylesheet declarations for what is
//! still missing. `accumulate_precomputed_styles` walks from an element up
//! to the root and lets every `inherit`, and every property not set at all,
//! take the value of the nearest ancestor that has one.

use vstd::prelude::*;
use vstd::string::*;
use crate::css_parse::{create_block, declarations};
use crate::selector::{selector_matches, ComponentView, Selector};
use crate::styles::{
    append,
    apply_rules,
    compute_size_spec,
    compute_styles,
    compute_styles_spec,
    error_of,
    zero_text,
    Applied,
    ComputedStyleValue,
    ComputedView,
    Number,
    PreComputedStyleValue,
    PreComputedView,
    StyleError,
    StyleMap,
    StyleName,
};
use crate::tree::{tree_model, NodeModel, Tree};
use crate::tree_generation_2::{ElementView, HTMLElement, HTMLNode, NodeValue};

verus! {

/// What a styled element holds: the element and its own style mapping.
pub struct StyledElementView {
    pub element: ElementView,
    pub styles: Map<StyleName, PreComputedView>,
}

/// An element together with the style mapping that `prepare` fills.
#[derive(Debug)]
pub struct BlockElement {
    element: HTMLElement,
    pre_computed_styles: StyleMap<PreComputedStyleValue>,
}

impl View for BlockElement {
    type V = StyledElementView;

    closed spec fn view(&self) -> StyledElementView {
        StyledElementView { element: self.element@, styles: self.pre_computed_styles@ }
    }
}

/// The name of the attribute that holds an element's inline declarations.
pub open spec fn style_attribute() -> Seq<char> {
    "style"@
}

/// The mapping `own` with the element's inline declarations applied.
pub open spec fn with_inline(own: Map<StyleName, PreComputedView>, element: ElementView) -> Applied {
    if element.attributes.contains_key(style_attribute()) {
        apply_rules(
            Applied { styles: own, error: None },
            declarations(element.attributes[style_attribute()]),
        )
    } else {
        Applied { styles: own, error: None }
    }
}

/// The mapping `own` with every property that only `global` gives added.
pub open spec fn fill_missing(
    own: Map<StyleName, PreComputedView>,
    global: Map<StyleName, PreComputedView>,
) -> Map<StyleName, PreComputedView> {
    Map::new(
        |name: StyleName| own.contains_key(name) || global.contains_key(name),
        |name: StyleName|
            if own.contains_key(name) {
                own[name]
            } else {
                global[name]
            },
    )
}

/// The element's own mapping after `prepare`: inline declarations are
/// applied first, then `global` fills what is missing. A declaration that
/// cannot be read stops the work before `global` is looked at.
pub open spec fn prepare_spec(
    node: StyledElementView,
    global: Map<StyleName, PreComputedView>,
) -> Applied {
    let inline = with_inline(node.styles, node.element);
    if inline.error is Some {
        inline
    } else {
        Applied { styles: fill_missing(inline.styles, global), error: None }
    }
}

/// The value of `name` after one step of the upward walk: the element's
/// own value where the walk has none yet or has `inherit`, else what the
/// walk has.
pub open spec fn merged_value(
    acc: Map<StyleName, PreComputedView>,
    own: Map<StyleName, PreComputedView>,
    name: StyleName,
) -> Option<PreComputedView> {
    if own.contains_key(name) && (!acc.contains_key(name) || acc[name] is Inherit) {
        Some(own[name])
    } else if acc.contains_key(name) {
        Some(acc[name])
    } else {
        None
    }
}

/// One step of the upward walk, for all properties.
pub open spec fn merge_inherited(
    acc: Map<StyleName, PreComputedView>,
    own: Map<StyleName, PreComputedView>,
) -> Map<StyleName, PreComputedView> {
    Map::new(
        |name: StyleName| merged_value(acc, own, name) is Some,
        |name: StyleName| merged_value(acc, own, name)->0,
    )
}

impl BlockElement {
    /// The element with an empty style mapping.
    pub fn new(element: HTMLElement) -> (block: BlockElement)
        ensures
            block@ == (StyledElementView { element: element@, styles: Map::empty() }),
    {
        let block = BlockElement { element, pre_computed_styles: StyleMap::new() };
        proof {
            assert(block@.styles =~= Map::empty());
        }
        block
    }

    /// The element.
    pub fn element(&self) -> (element: &HTMLElement)
        ensures
            element@ == self@.element,
    {
        &self.element
    }

    /// The element's own style mapping.
    pub fn styles(&self) -> (styles: &StyleMap<PreComputedStyleValue>)
        ensures
            styles@ == self@.styles,
    {
        &self.pre_computed_styles
    }

    /// Whether the selector matches the element.
    pub fn matches(&self, selector: &Selector) -> (met: bool)
        ensures
            met == selector_matches(selector@, self@.element),
    {
        selector.matches(&self.element)
    }

    fn fill_entry(&mut self, name: StyleName, global: &StyleMap<PreComputedStyleValue>)
        ensures
            final(self)@.element == old(self)@.element,
            final(self)@.styles.contains_key(name) == fill_missing(
                old(self)@.styles,
                global@,
            ).contains_key(name),
            final(self)@.styles.contains_key(name) ==> final(self)@.styles[name] == fill_missing(
                old(self)@.styles,
                global@,
            )[name],
            forall|other: StyleName|
                other != name ==> final(self).pre_computed_styles.entry(other) == old(
                    self,
                ).pre_computed_styles.entry(other),
    {
        match global.get(name) {
            Some(value) => {
                if !self.pre_computed_styles.contains_key(name) {
                    self.pre_computed_styles.insert(name, value.clone());
                }
            },
            None => {},
        }
    }

    /// Fills the element's own mapping: the inline declarations of its
    /// `style` attribute, then from `global` what is still missing.
    pub fn prepare(&mut self, global: &StyleMap<PreComputedStyleValue>) -> (outcome: Result<
        (),
        StyleError,
    >)
        ensures
            final(self)@.element == old(self)@.element,
            (Applied { styles: final(self)@.styles, error: error_of(outcome) }) == prepare_spec(
                old(self)@,
                global@,
            ),
    {
        let style_name = String::from_str("style");
        match self.element.get_attribute(&style_name) {
            Some(style_attr) => {
                let block = create_block(style_attr.as_str());
                match append(&mut self.pre_computed_styles, block) {
                    Ok(_) => {},
                    Err(e) => {
                        return Err(e);
                    },
                }
            },
            None => {},
        }
        let ghost inline = self@.styles;
        self.fill_entry(StyleName::Width, global);
        self.fill_entry(StyleName::Height, global);
        proof {
            assert(self@.styles =~= fill_missing(inline, global@));
        }
        Ok(())
    }

    fn merge_entry(&self, name: StyleName, pcs: &mut StyleMap<PreComputedStyleValue>)
        ensures
            final(pcs)@.contains_key(name) == merged_value(old(pcs)@, self@.styles, name) is Some,
            final(pcs)@.contains_key(name) ==> final(pcs)@[name] == merged_value(
                old(pcs)@,
                self@.styles,
                name,
            )->0,
            forall|other: StyleName|
                other != name ==> final(pcs).entry(other) == old(pcs).entry(other),
    {
        match self.pre_computed_styles.get(name) {
            Some(value) => {
                let overwrite = match pcs.get(name) {
                    Some(PreComputedStyleValue::Inherit) => true,
                    Some(_) => false,
                    None => true,
                };
                if overwrite {
                    pcs.insert(name, value.clone());
                }
            },
            None => {},
        }
    }

    /// One step of the upward walk: hands the element's own values to the
    /// walk, for every property that the walk has not settled yet.
    pub fn merge_into(&self, pcs: &mut StyleMap<PreComputedStyleValue>)
        ensures
            final(pcs)@ == merge_inherited(old(pcs)@, self@.styles),
    {
        self.merge_entry(StyleName::Width, pcs);
        self.merge_entry(StyleName::Height, pcs);
        proof {
            assert(pcs@ =~= merge_inherited(old(pcs)@, self@.styles));
        }
    }
}

/// The root of a styled document. It carries no style.
#[derive(Debug)]
pub struct RootElement {}

impl RootElement {
    pub fn new() -> (root: RootElement) {
        RootElement {  }
    }
}

/// A run of text in a styled document. It carries no style.
#[derive(Debug)]
pub struct TextNode {
    text: String,
}

impl View for TextNode {
    type V = Seq<char>;

    closed spec fn view(&self) -> Seq<char> {
        self.text@
    }
}

impl TextNode {
    pub fn new(text: String) -> (node: TextNode)
        ensures
            node@ == text@,
    {
        TextNode { text }
    }

    /// The text.
    pub fn text(&self) -> (text: &String)
        ensures
            text@ == self@,
    {
        &self.text
    }
}

/// What a node of a styled document holds.
pub enum DomView {
    Root,
    Element(StyledElementView),
    Text(Seq<char>),
}

/// A node of a styled document.
#[derive(Debug)]
pub enum DomNode {
    Root(RootElement),
    Element(BlockElement),
    Text(TextNode),
}

impl View for DomNode {
    type V = DomView;

    open spec fn view(&self) -> DomView {
        match self {
            DomNode::Root(_) => DomView::Root,
            DomNode::Element(block) => DomView::Element(block@),
            DomNode::Text(text) => DomView::Text(text@),
        }
    }
}

/// The styled node that a document node starts as: nothing is styled yet.
pub open spec fn styled_of(value: NodeValue) -> DomView {
    match value {
        NodeValue::Root => DomView::Root,
        NodeValue::Element(element) => DomView::Element(
            StyledElementView { element, styles: Map::empty() },
        ),
        NodeValue::Text(content) => DomView::Text(content),
    }
}

/// Whether the selector matches the node. Only elements are ever matched.
pub open spec fn node_matches(node: DomView, selector: Seq<ComponentView>) -> bool {
    match node {
        DomView::Element(block) => selector_matches(selector, block.element),
        _ => false,
    }
}

/// What `prepare` makes of a node: an element's own mapping is filled, a
/// root and a text stay as they are.
pub open spec fn prepare_node_spec(node: DomView, global: Map<StyleName, PreComputedView>) -> (
    DomView,
    Option<StyleError>,
) {
    match node {
        DomView::Element(block) => {
            let applied = prepare_spec(block, global);
            (
                DomView::Element(
                    StyledElementView { element: block.element, styles: applied.styles },
                ),
                applied.error,
            )
        },
        _ => (node, None),
    }
}

impl DomNode {
    /// The styled node for a node of the document tree.
    pub fn from_html(node: &HTMLNode) -> (styled: DomNode)
        ensures
            styled@ == styled_of(node@),
    {
        match node {
            HTMLNode::Root => DomNode::Root(RootElement::new()),
            HTMLNode::Element(element) => DomNode::Element(BlockElement::new(element.clone())),
            HTMLNode::Text(text) => DomNode::Text(TextNode::new(text.clone())),
        }
    }

    /// Whether the selector matches the node.
    pub fn matches(&self, selector: &Selector) -> (met: bool)
        ensures
            met == node_matches(self@, selector@),
    {
        match self {
            DomNode::Element(block) => block.matches(selector),
            _ => false,
        }
    }

    /// Fills the node's own style mapping, if it has one.
    pub fn prepare(&mut self, global: &StyleMap<PreComputedStyleValue>) -> (outcome: Result<
        (),
        StyleError,
    >)
        ensures
            (final(self)@, error_of(outcome)) == prepare_node_spec(old(self)@, global@),
    {
        match self {
            DomNode::Element(block) => block.prepare(global),
            _ => Ok(()),
        }
    }
}

/// A node of a styled document, over plain values.
pub type StyledNode = NodeModel<DomView>;

/// Every element has a parent: the walk from an element towards the root
/// ends at a node that is no element.
pub open spec fn elements_have_parents(doc: Seq<StyledNode>) -> bool {
    forall|i: int| 0 <= i < doc.len() && (#[trigger] doc[i]).value is Element ==> doc[i].parent is Some
}

/// The upward walk from node `id` with `acc` in hand: an element merges its
/// own mapping in and hands the result to its parent; at a node that is no
/// element the walk ends.
pub open spec fn accumulate_spec(
    doc: Seq<StyledNode>,
    id: int,
    acc: Map<StyleName, PreComputedView>,
) -> Map<StyleName, PreComputedView>
    decreases id,
{
    if 0 <= id < doc.len() {
        match doc[id].value {
            DomView::Element(block) => {
                let merged = merge_inherited(acc, block.styles);
                match doc[id].parent {
                    Some(p) => if 0 <= p < id {
                        accumulate_spec(doc, p, merged)
                    } else {
                        merged
                    },
                    None => merged,
                }
            },
            _ => acc,
        }
    } else {
        acc
    }
}

/// Walks from node `id` up to the root and gathers in `pcs`, for every
/// property, the value of the nearest node that settles it.
pub fn accumulate_precomputed_styles(
    tree: &Tree<DomNode>,
    id: usize,
    pcs: &mut StyleMap<PreComputedStyleValue>,
)
    requires
        id < tree@.len(),
        elements_have_parents(tree_model(tree@)),
    ensures
        final(pcs)@ == accumulate_spec(tree_model(tree@), id as int, old(pcs)@),
    decreases id,
{
    let node = tree.get(id);
    proof {
        tree.lemma_wf();
        assert(tree_model(tree@)[id as int].value == node.value@);
    }
    match &node.value {
        DomNode::Element(block) => {
            block.merge_into(pcs);
            match node.get_parent() {
                Some(parent) => {
                    accumulate_precomputed_styles(tree, parent, pcs);
                },
                None => {},
            }
        },
        _ => {},
    }
}

/// No node on the walk from `id` to the root sets `name`.
pub open spec fn unset_above(doc: Seq<StyledNode>, id: int, name: StyleName) -> bool
    decreases id,
{
    if 0 <= id < doc.len() {
        match doc[id].value {
            DomView::Element(block) => !block.styles.contains_key(name) && (match doc[id].parent {
                Some(p) => if 0 <= p < id {
                    unset_above(doc, p, name)
                } else {
                    true
                },
                None => true,
            }),
            _ => true,
        }
    } else {
        true
    }
}

/// A property that no node on the walk sets is not gathered.
pub proof fn lemma_accumulate_unset(
    doc: Seq<StyledNode>,
    id: int,
    name: StyleName,
    acc: Map<StyleName, PreComputedView>,
)
    requires
        unset_above(doc, id, name),
        !acc.contains_key(name),
    ensures
        !accumulate_spec(doc, id, acc).contains_key(name),
    decreases id,
{
    if 0 <= id < doc.len() {
        match doc[id].value {
            DomView::Element(block) => {
                let merged = merge_inherited(acc, block.styles);
                match doc[id].parent {
                    Some(p) => {
                        if 0 <= p < id {
                            lemma_accumulate_unset(doc, p, name, merged);
                        }
                    },
                    None => {},
                }
            },
            _ => {},
        }
    }
}

/// Default fallback: where neither the element nor any of its ancestors
/// sets a property, the property resolves to zero.
pub proof fn lemma_default_fallback(doc: Seq<StyledNode>, id: int, name: StyleName)
    requires
        0 <= id < doc.len(),
        unset_above(doc, id, name),
    ensures
        pixels_spec(compute_styles_spec(accumulate_spec(doc, id, Map::empty())), name)
            == zero_text(),
{
    lemma_accumulate_unset(doc, id, name, Map::empty());
}

/// An element without inline declarations, for which no matching rule
/// block sets `name`, does not set `name`.
pub proof fn lemma_prepare_leaves_unset(
    element: ElementView,
    global: Map<StyleName, PreComputedView>,
    name: StyleName,
)
    requires
        !element.attributes.contains_key(style_attribute()),
        !global.contains_key(name),
    ensures
        prepare_spec(StyledElementView { element, styles: Map::empty() }, global).error is None,
        !prepare_spec(StyledElementView { element, styles: Map::empty() }, global).styles.contains_key(
            name,
        ),
{
}

/// A value that the walk has settled stays: no ancestor overrides a value
/// other than `inherit`.
pub proof fn lemma_accumulate_settled(
    doc: Seq<StyledNode>,
    id: int,
    name: StyleName,
    acc: Map<StyleName, PreComputedView>,
)
    requires
        acc.contains_key(name),
        !(acc[name] is Inherit),
    ensures
        accumulate_spec(doc, id, acc).contains_key(name),
        accumulate_spec(doc, id, acc)[name] == acc[name],
    decreases id,
{
    if 0 <= id < doc.len() {
        match doc[id].value {
            DomView::Element(block) => {
                let merged = merge_inherited(acc, block.styles);
                match doc[id].parent {
                    Some(p) => {
                        if 0 <= p < id {
                            lemma_accumulate_settled(doc, p, name, merged);
                        }
                    },
                    None => {},
                }
            },
            _ => {},
        }
    }
}

/// The walk from `id` reaches `ancestor`, and every element before it on
/// the walk leaves `name` to its ancestors: it does not set `name`, or sets
/// it to `inherit`.
pub open spec fn defers_to(doc: Seq<StyledNode>, id: int, ancestor: int, name: StyleName) -> bool
    decreases id,
{
    if id == ancestor {
        true
    } else if 0 <= id < doc.len() {
        match doc[id].value {
            DomView::Element(block) => {
                &&& !block.styles.contains_key(name) || block.styles[name] is Inherit
                &&& doc[id].parent matches Some(p) && 0 <= p < id && defers_to(doc, p, ancestor, name)
            },
            _ => false,
        }
    } else {
        false
    }
}

/// Inheritance: a value other than `inherit` that an ancestor sets is the
/// value of every descendant that defers to it.
pub proof fn lemma_inherits(
    doc: Seq<StyledNode>,
    id: int,
    ancestor: int,
    name: StyleName,
    acc: Map<StyleName, PreComputedView>,
)
    requires
        0 <= ancestor < doc.len(),
        defers_to(doc, id, ancestor, name),
        doc[ancestor].value matches DomView::Element(block) && block.styles.contains_key(name) && !(
        block.styles[name] is Inherit),
        !acc.contains_key(name) || acc[name] is Inherit,
    ensures
        accumulate_spec(doc, id, acc).contains_key(name),
        accumulate_spec(doc, id, acc)[name] == doc[ancestor].value->Element_0.styles[name],
    decreases id,
{
    let block = doc[id].value->Element_0;
    let merged = merge_inherited(acc, block.styles);
    if id == ancestor {
        assert(merged.contains_key(name) && merged[name] == block.styles[name]);
        match doc[id].parent {
            Some(p) => {
                if 0 <= p < id {
                    lemma_accumulate_settled(doc, p, name, merged);
                }
            },
            None => {},
        }
    } else {
        let p = doc[id].parent->0;
        assert(!merged.contains_key(name) || merged[name] is Inherit);
        lemma_inherits(doc, p, ancestor, name, merged);
    }
}

/// Inheritance, resolved: where the ancestor sets a size in pixels, the
/// deferring element resolves to that size.
pub proof fn lemma_inherited_pixels(
    doc: Seq<StyledNode>,
    id: int,
    ancestor: int,
    name: StyleName,
    size: PreComputedView,
)
    requires
        0 <= ancestor < doc.len(),
        defers_to(doc, id, ancestor, name),
        doc[ancestor].value matches DomView::Element(block) && block.styles.contains_key(name)
            && block.styles[name] == size,
        !(size is Inherit),
    ensures
        compute_styles_spec(accumulate_spec(doc, id, Map::empty()))[name] == compute_size_spec(size),
        pixels_spec(compute_styles_spec(accumulate_spec(doc, id, Map::empty())), name) == (
        match compute_size_spec(size) {
            ComputedView::Size(v) => v,
            ComputedView::VDefault => zero_text(),
        }),
{
    lemma_inherits(doc, id, ancestor, name, Map::empty());
}

/// Cascade precedence: what an element declares inline is what `prepare`
/// gives it, whatever the matching rule blocks declare for the same
/// property.
pub proof fn lemma_inline_wins(
    element: ElementView,
    global: Map<StyleName, PreComputedView>,
    name: StyleName,
)
    requires
        with_inline(Map::empty(), element).error is None,
        with_inline(Map::empty(), element).styles.contains_key(name),
    ensures
        prepare_spec(StyledElementView { element, styles: Map::empty() }, global).error is None,
        prepare_spec(StyledElementView { element, styles: Map::empty() }, global).styles.contains_key(
            name,
        ),
        prepare_spec(StyledElementView { element, styles: Map::empty() }, global).styles[name]
            == with_inline(Map::empty(), element).styles[name],
{
}

/// Cascade precedence, resolved: an element whose inline declaration of a
/// property is a value other than `inherit` resolves to that value,
/// whatever the matching rule blocks and the ancestors declare.
pub proof fn lemma_inline_resolves(
    doc: Seq<StyledNode>,
    id: int,
    element: ElementView,
    global: Map<StyleName, PreComputedView>,
    name: StyleName,
)
    requires
        0 <= id < doc.len(),
        with_inline(Map::empty(), element).error is None,
        with_inline(Map::empty(), element).styles.contains_key(name),
        !(with_inline(Map::empty(), element).styles[name] is Inherit),
        doc[id].value == DomView::Element(
            StyledElementView {
                element,
                styles: prepare_spec(
                    StyledElementView { element, styles: Map::empty() },
                    global,
                ).styles,
            },
        ),
    ensures
        compute_styles_spec(accumulate_spec(doc, id, Map::empty()))[name] == compute_size_spec(
            with_inline(Map::empty(), element).styles[name],
        ),
{
    lemma_inline_wins(element, global, name);
    lemma_inherits(doc, id, id, name, Map::empty());
}

/// What a resolved size holds: width and height in pixels.
pub struct ExtentView {
    pub width: Seq<char>,
    pub height: Seq<char>,
}

/// The resolved size of an element: width and height in pixels.
#[derive(Debug)]
pub struct Extent {
    pub width: Number,
    pub height: Number,
}

impl View for Extent {
    type V = ExtentView;

    open spec fn view(&self) -> ExtentView {
        ExtentView { width: self.width@, height: self.height@ }
    }
}

/// The pixels that a resolved mapping gives a property: its size, or zero
/// where it gives none.
pub open spec fn pixels_spec(computed: Map<StyleName, ComputedView>, name: StyleName) -> Seq<char> {
    if computed.contains_key(name) {
        match computed[name] {
            ComputedView::Size(v) => v,
            ComputedView::VDefault => zero_text(),
        }
    } else {
        zero_text()
    }
}

/// The resolved size of node `id`: an element has the size that its
/// gathered mapping resolves to, any other node has none.
pub open spec fn compute_style_spec(doc: Seq<StyledNode>, id: int) -> Option<ExtentView> {
    match doc[id].value {
        DomView::Element(_) => {
            let computed = compute_styles_spec(accumulate_spec(doc, id, Map::empty()));
            Some(
                ExtentView {
                    width: pixels_spec(computed, StyleName::Width),
                    height: pixels_spec(computed, StyleName::Height),
                },
            )
        },
        _ => None,
    }
}

/// The pixels that a resolved mapping gives a property.
pub fn pixels(computed: &StyleMap<ComputedStyleValue>, name: StyleName) -> (size: Number)
    ensures
        size@ == pixels_spec(computed@, name),
{
    match computed.get(name) {
        Some(ComputedStyleValue::Size(v)) => v.clone(),
        _ => Number::zero(),
    }
}

/// The resolved size of node `id`, or `None` for a node that draws
/// nothing.
pub fn compute_style(tree: &Tree<DomNode>, id: usize) -> (extent: Option<Extent>)
    requires
        id < tree@.len(),
        elements_have_parents(tree_model(tree@)),
    ensures
        match extent {
            Some(e) => compute_style_spec(tree_model(tree@), id as int) == Some(e@),
            None => compute_style_spec(tree_model(tree@), id as int) is None,
        },
{
    proof {
        assert(tree_model(tree@)[id as int].value == tree@[id as int].value@);
    }
    match &tree.get(id).value {
        DomNode::Element(_) => {
            let mut pre_computed: StyleMap<PreComputedStyleValue> = StyleMap::new();
            proof {
                assert(pre_computed@ =~= Map::empty());
            }
            accumulate_precomputed_styles(tree, id, &mut pre_computed);
            let computed = compute_styles(&pre_computed);
            Some(
                Extent {
                    width: pixels(&computed, StyleName::Width),
                    height: pixels(&computed, StyleName::Height),
                },
            )
        },
        _ => None,
    }
}

} // verus!
