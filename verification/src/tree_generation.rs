//! The document tree builder for documents whose nodes carry a renderer:
//! it builds the same tree as `tree_generation_2`, and beside the content
//! of every node it stores what a generator makes for that content.

use vstd::prelude::*;
use vstd::string::*;
use crate::attrs::Attributes;
use crate::tag_parse::{tokens_view, HTMLChild, HTMLStartTag, Token};
use crate::tree::{tree_model, Tree, TreeNode};
use crate::tree_generation_2::{attach_node, build, initial_build, ElementView, NodeValue};

verus! {

/// The content of the root of a document.
#[derive(Debug)]
pub struct HTMLRoot {}

impl HTMLRoot {
    pub fn new() -> (root: HTMLRoot) {
        HTMLRoot {  }
    }
}

/// The content of an element: its tag name and its attributes.
#[derive(Debug)]
pub struct HTMLElement {
    pub tagname: String,
    pub attrs: Attributes,
}

impl View for HTMLElement {
    type V = ElementView;

    open spec fn view(&self) -> ElementView {
        ElementView { tagname: self.tagname@, attributes: self.attrs@ }
    }
}

impl HTMLElement {
    fn new(start_tag: &HTMLStartTag) -> (element: HTMLElement)
        ensures
            element@ == (ElementView { tagname: start_tag@.name, attributes: start_tag@.attrs }),
    {
        HTMLElement { tagname: start_tag.clone_name(), attrs: start_tag.clone_attrs() }
    }
}

/// The content of a run of text.
#[derive(Debug)]
pub struct HTMLText {
    pub content: String,
}

impl HTMLText {
    fn new(content: String) -> (text: HTMLText)
        ensures
            text.content@ == content@,
    {
        HTMLText { content }
    }
}

/// The content of a node.
#[derive(Debug)]
pub enum HTMLNodeContent {
    Text(HTMLText),
    Element(HTMLElement),
    Root(HTMLRoot),
}

impl View for HTMLNodeContent {
    type V = NodeValue;

    open spec fn view(&self) -> NodeValue {
        match self {
            HTMLNodeContent::Text(text) => NodeValue::Text(text.content@),
            HTMLNodeContent::Element(element) => NodeValue::Element(element@),
            HTMLNodeContent::Root(_) => NodeValue::Root,
        }
    }
}

/// Makes the renderer of a node from the node's content.
pub trait RenderGenerator<T> {
    fn generate(&mut self, node: &HTMLNodeContent) -> T;
}

/// A node of a document: its content, and the renderer made for it.
#[derive(Debug)]
pub struct HTMLNode<R> {
    pub content: HTMLNodeContent,
    pub renderer: R,
}

impl<R> View for HTMLNode<R> {
    type V = NodeValue;

    open spec fn view(&self) -> NodeValue {
        self.content@
    }
}

impl<R> HTMLNode<R> {
    fn new<G: RenderGenerator<R>>(content: HTMLNodeContent, generator: &mut G) -> (node: HTMLNode<R>)
        ensures
            node.content == content,
    {
        let renderer = generator.generate(&content);
        HTMLNode { renderer, content }
    }
}

/// Builds the document tree of the given tokens, as `create_node_tree`
/// does, and has `generator` make a renderer for every node, in the order
/// in which the nodes are made. The root of the document is the node at
/// position 0.
pub fn create_elements<R, G: RenderGenerator<R>>(tags: Vec<HTMLChild>, generator: &mut G) -> (tree:
    Tree<HTMLNode<R>>)
    ensures
        tree_model(tree@) == build(tokens_view(tags@)).nodes,
{
    let mut tree: Tree<HTMLNode<R>> = Tree::new();
    let root = tree.insert(
        TreeNode::root(HTMLNode::new(HTMLNodeContent::Root(HTMLRoot::new()), generator)),
    );
    let mut parent: usize = root;
    let ghost tokens = tokens_view(tags@);
    proof {
        assert(tree_model(tree@) =~= initial_build().nodes) by {
            assert(tree_model(tree@)[0].children =~= Seq::<int>::empty());
        }
        assert(tokens.take(0) =~= Seq::<Token>::empty());
    }
    let mut i: usize = 0;
    while i < tags.len()
        invariant
            i <= tags@.len(),
            tokens == tokens_view(tags@),
            parent < tree@.len(),
            tree_model(tree@) == build(tokens.take(i as int)).nodes,
            parent as int == build(tokens.take(i as int)).current,
        decreases tags@.len() - i,
    {
        proof {
            assert(tokens.take(i + 1).drop_last() =~= tokens.take(i as int));
            assert(tokens.take(i + 1).last() == tags@[i as int]@);
        }
        match &tags[i] {
            HTMLChild::StartTag(tag) => {
                let core_element = HTMLElement::new(tag);
                let element = HTMLNode::new(HTMLNodeContent::Element(core_element), generator);
                let id = attach_node(&mut tree, parent, element);
                if !tag.is_self_close() {
                    parent = id;
                }
            },
            HTMLChild::EndTag(_) => {
                match tree.get(parent).get_parent() {
                    Some(new_parent) => {
                        proof {
                            tree.lemma_wf();
                        }
                        parent = new_parent;
                    },
                    None => {},
                }
            },
            HTMLChild::Text(string) => {
                let core_element = HTMLText::new(string.clone());
                let element = HTMLNode::new(HTMLNodeContent::Text(core_element), generator);
                attach_node(&mut tree, parent, element);
            },
        }
        i += 1;
    }
    proof {
        assert(tokens.take(i as int) =~= tokens);
    }
    tree
}

} // verus!
