//! A small document engine: a markup tokenizer, a document tree builder, a
//! stylesheet parser and a style cascade, with machine-checked contracts.
//!
//! Markup text becomes tokens (`tag_parse`), tokens become a tree
//! (`tree_generation_2` over `tree`), stylesheet text becomes rule blocks
//! (`css_parse`), and tree and rule blocks together give every element its
//! resolved size (`selector`, `styles`, `dom`, `web_frame`).
//!
//! Beside these stand a second tokenizer (`tag_parse_legacy`), a builder
//! for documents whose nodes carry a renderer (`tree_generation`), and the
//! proof that the tokenizer reads back what is written from tokens
//! (`tag_render`).

use vstd::prelude::*;
use vstd::string::*;

pub mod attrs;
pub mod css_parse;
pub mod dom;
pub mod selector;
pub mod strings;
pub mod styles;
pub mod tag_parse;
pub mod tag_parse_legacy;
pub mod tag_render;
pub mod tree;
pub mod tree_generation;
pub mod tree_generation_2;
pub mod web_frame;

use crate::css_parse::{blocks_view, declarations, stylesheet, BlockView, CSSBlock};
use crate::strings::chars_of_bytes;
use crate::tag_parse::{tokenize, TagParser};
use crate::tree::{child_lists, ids_view, preorder, tree_model, Tree, TreeNode};
use crate::tree_generation::{create_elements, RenderGenerator};
use crate::tree_generation_2::{build, create_node_tree, doc_view, DocNode, HTMLNode};

verus! {

/// The document tree of markup, given as its bytes: the tokens of the
/// markup, built into a tree.
pub open spec fn document(markup: Seq<u8>) -> Seq<DocNode> {
    build(tokenize(chars_of_bytes(markup))).nodes
}

/// Tokenizes `html` and builds its document tree, with a renderer from
/// `generator` at every node. The root of the document is the node at
/// position 0.
pub fn parse_html<R, G: RenderGenerator<R>>(html: &str, generator: &mut G) -> (tree: Tree<
    tree_generation::HTMLNode<R>,
>)
    ensures
        tree_model(tree@) == document(html.spec_bytes()),
{
    let mut x = TagParser::new();
    x.parse(html);
    create_elements(x.get_nodes(), generator)
}

/// Tokenizes `html` and builds its document tree. The root of the document
/// is the node at position 0.
pub fn parse_html_new(html: &str) -> (tree: Tree<HTMLNode>)
    ensures
        doc_view(tree@) == document(html.spec_bytes()),
{
    let mut x = TagParser::new();
    x.parse(html);
    create_node_tree(x.get_nodes())
}

/// The rule blocks of a stylesheet, in source order.
pub fn parse_css(css: &str) -> (blocks: Vec<CSSBlock>)
    ensures
        blocks_view(blocks@) == stylesheet(css@),
{
    css_parse::create_blocks(css)
}

/// The declarations of an inline style, as a block with an empty selector.
pub fn parse_css_inner(css: &str) -> (block: CSSBlock)
    ensures
        block@ == (BlockView { selector: Seq::empty(), rules: declarations(css@) }),
{
    css_parse::create_block(css)
}

/// What `walk` calls for every node.
pub trait WalkCB<R>: Sized {
    /// What one call does, as whoever implements the callback states it:
    /// `self` is how the callback stands after a call with `el` that found
    /// it as `before`. Who states nothing promises nothing.
    open spec fn follows(
        &self,
        before: &Self,
        el: &TreeNode<tree_generation::HTMLNode<R>>,
    ) -> bool {
        true
    }

    fn element(&mut self, el: &TreeNode<tree_generation::HTMLNode<R>>)
        ensures
            final(self).follows(old(self), el),
    ;
}

/// The callback `after` is what `before` becomes by one call for each of
/// the nodes at the positions of `order`, in that order, each call finding
/// the callback as the call before it left it.
pub open spec fn walked<R, C: WalkCB<R>>(
    nodes: Seq<TreeNode<tree_generation::HTMLNode<R>>>,
    order: Seq<int>,
    before: C,
    after: C,
) -> bool
    decreases order.len(),
{
    if order.len() == 0 {
        after == before
    } else {
        exists|mid: C|
            #![trigger after.follows(&mid, &nodes[order.last()])]
            walked(nodes, order.drop_last(), before, mid) && after.follows(
                &mid,
                &nodes[order.last()],
            )
    }
}

/// Calls `cb` for every node of the subtree under `root`, in pre-order:
/// a node first, then the subtrees of its children in their order.
pub fn walk<R, C: WalkCB<R>>(tree: &Tree<tree_generation::HTMLNode<R>>, root: usize, cb: &mut C)
    requires
        root < tree@.len(),
    ensures
        walked(tree@, preorder(child_lists(tree@), root as int), *old(cb), *final(cb)),
{
    let order = tree.preorder_ids(root);
    let ghost positions = preorder(child_lists(tree@), root as int);
    proof {
        assert(positions.take(0) =~= Seq::<int>::empty());
    }
    let mut k: usize = 0;
    while k < order.len()
        invariant
            k <= order@.len(),
            positions == ids_view(order@),
            forall|j: int| 0 <= j < order@.len() ==> #[trigger] order@[j] < tree@.len(),
            walked(tree@, positions.take(k as int), *old(cb), *cb),
        decreases order@.len() - k,
    {
        let id = order[k];
        let ghost found = *cb;
        cb.element(tree.get(id));
        proof {
            assert(positions.take(k + 1).drop_last() =~= positions.take(k as int));
            assert(positions.take(k + 1).last() == id as int);
            assert(walked(tree@, positions.take(k + 1).drop_last(), *old(cb), found));
            assert((*cb).follows(&found, &tree@[positions.take(k + 1).last()]));
        }
        k += 1;
    }
    proof {
        assert(positions.take(k as int) =~= positions);
    }
}

} // verus!
