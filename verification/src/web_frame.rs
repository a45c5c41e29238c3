//! The style pass over a whole document: from markup to the resolved size
//! of every node, in the order in which the nodes are drawn.
//!
//! The stylesheet of a document is the text of its `style` elements. Each
//! node, root first, is prepared with the declarations of the rule blocks
//! that match it, a later block overriding an earlier one; then the size of
//! every node is resolved by the upward walk.

use vstd::prelude::*;
use vstd::string::*;
use crate::css_parse::{blocks_view, stylesheet, BlockView, CSSBlock};
use crate::dom::{
    compute_style,
    compute_style_spec,
    elements_have_parents,
    node_matches,
    prepare_node_spec,
    styled_of,
    DomNode,
    DomView,
    Extent,
    ExtentView,
    RootElement,
    StyledNode,
};
use crate::selector::{selector_of_text, Selector};
use crate::styles::{
    append_ref,
    apply_rules,
    error_of,
    lemma_last_declaration_counts,
    parse_size_spec,
    property_of,
    Applied,
    PreComputedStyleValue,
    StyleError,
    StyleMap,
    StyleName,
};
use crate::tree::{
    child_lists,
    ids_view,
    kept,
    lemma_model_child_lists,
    lemma_preorder_in_range,
    model_child_lists,
    preorder,
    tree_model,
    NodeModel,
    Tree,
    TreeNode,
};
use crate::document;
use crate::strings::chars_of_bytes;
use crate::tag_parse::tokenize;
use crate::tree_generation_2::{
    doc_view,
    lemma_build_shape,
    lemma_document_order,
    DocNode,
    HTMLNode,
    NodeValue,
};

verus! {

/// The styled document that a document starts as: the same nodes and
/// links, nothing styled yet.
pub open spec fn styled_doc(doc: Seq<DocNode>) -> Seq<StyledNode> {
    Seq::new(
        doc.len(),
        |i: int|
            NodeModel {
                value: styled_of(doc[i].value),
                parent: doc[i].parent,
                children: doc[i].children,
            },
    )
}

/// The styled node for a stored node of the document tree.
fn styled_node(node: &TreeNode<HTMLNode>) -> (styled: DomNode)
    ensures
        styled@ == styled_of(node.value@),
{
    DomNode::from_html(&node.value)
}

/// The styled document for a document tree.
pub fn annotate(dom: &Tree<HTMLNode>) -> (annotated: Tree<DomNode>)
    ensures
        tree_model(annotated@) == styled_doc(doc_view(dom@)),
{
    let annotated = dom.map_values(styled_node);
    proof {
        assert(tree_model(annotated@) =~= styled_doc(doc_view(dom@)));
    }
    annotated
}

/// Whether a node is a `style` element.
pub open spec fn is_style_element(value: NodeValue) -> bool {
    value matches NodeValue::Element(element) && element.tagname == "style"@
}

/// For each position of `order`, whether the node there is a `style`
/// element.
pub open spec fn style_flags(doc: Seq<DocNode>, order: Seq<int>) -> Seq<bool> {
    Seq::new(order.len(), |k: int| is_style_element(doc[order[k]].value))
}

/// The `style` elements of a document, in pre-order from the root.
pub open spec fn style_elements(doc: Seq<DocNode>) -> Seq<int> {
    let order = preorder(model_child_lists(doc), 0);
    kept(order, style_flags(doc, order))
}

/// The stylesheet text that the `style` element at `id` holds: the text of
/// its first child, or nothing where it has no child. A first child that is
/// no text is an error.
pub open spec fn style_text(doc: Seq<DocNode>, id: int) -> Result<Seq<char>, StyleError> {
    if doc[id].children.len() == 0 {
        Ok(Seq::empty())
    } else {
        match doc[doc[id].children[0]].value {
            NodeValue::Text(content) => Ok(content),
            _ => Err(StyleError::InvalidCss),
        }
    }
}

/// The texts of the `style` elements at `ids`, joined by line breaks.
pub open spec fn joined_style_texts(doc: Seq<DocNode>, ids: Seq<int>) -> Result<
    Seq<char>,
    StyleError,
>
    decreases ids.len(),
{
    if ids.len() == 0 {
        Ok(Seq::empty())
    } else {
        match joined_style_texts(doc, ids.drop_last()) {
            Err(e) => Err(e),
            Ok(front) => match style_text(doc, ids.last()) {
                Err(e) => Err(e),
                Ok(text) => if ids.len() == 1 {
                    Ok(text)
                } else {
                    Ok(front + seq!['\n'] + text)
                },
            },
        }
    }
}

/// The stylesheet text of a document.
pub open spec fn embedded_stylesheet_spec(doc: Seq<DocNode>) -> Result<Seq<char>, StyleError> {
    joined_style_texts(doc, style_elements(doc))
}

/// What an outcome with a text holds.
pub open spec fn text_outcome(outcome: Result<String, StyleError>) -> Result<Seq<char>, StyleError> {
    match outcome {
        Ok(text) => Ok(text@),
        Err(e) => Err(e),
    }
}

/// Once a `style` element has failed, the later ones change nothing.
proof fn lemma_joined_stuck(doc: Seq<DocNode>, ids: Seq<int>, n: int)
    requires
        0 <= n <= ids.len(),
        joined_style_texts(doc, ids.take(n)) is Err,
    ensures
        joined_style_texts(doc, ids) == joined_style_texts(doc, ids.take(n)),
    decreases ids.len() - n,
{
    if n == ids.len() {
        assert(ids.take(n) =~= ids);
    } else {
        assert(ids.take(n + 1).drop_last() =~= ids.take(n));
        lemma_joined_stuck(doc, ids, n + 1);
    }
}

/// Whether a stored node is a `style` element.
fn is_style_node(node: &TreeNode<HTMLNode>) -> (hit: bool)
    ensures
        hit == is_style_element(node.value@),
{
    match &node.value {
        HTMLNode::Element(element) => element.is_tag(&String::from_str("style")),
        _ => false,
    }
}

/// The stylesheet text of a document: the texts of its `style` elements,
/// in document order, joined by line breaks.
pub fn embedded_stylesheet(dom: &Tree<HTMLNode>) -> (outcome: Result<String, StyleError>)
    ensures
        text_outcome(outcome) == embedded_stylesheet_spec(doc_view(dom@)),
{
    let ghost doc = doc_view(dom@);
    proof {
        lemma_model_child_lists(dom@);
    }
    if dom.len() == 0 {
        return Ok(String::new());
    }
    let ids = dom.find(0, is_style_node);
    let ghost found = ids_view(ids@);
    proof {
        let order = preorder(child_lists(dom@), 0);
        let keep = choose|keep: Seq<bool>|
            {
                &&& keep.len() == order.len()
                &&& forall|k: int|
                    0 <= k < keep.len() ==> call_ensures(
                        is_style_node,
                        (&dom@[order[k]],),
                        #[trigger] keep[k],
                    )
                &&& ids_view(ids@) == kept(order, keep)
            };
        lemma_preorder_in_range(child_lists(dom@), 0);
        assert forall|k: int| 0 <= k < keep.len() implies keep[k] == style_flags(doc, order)[k] by {
            assert(call_ensures(is_style_node, (&dom@[order[k]],), keep[k]));
            assert(0 <= order[k] < dom@.len());
            assert(doc[order[k]].value == dom@[order[k]].value@);
        }
        assert(keep =~= style_flags(doc, order));
        assert(found == style_elements(doc));
        assert(found.take(0) =~= Seq::<int>::empty());
    }
    let mut total = String::new();
    let mut k: usize = 0;
    while k < ids.len()
        invariant
            k <= ids@.len(),
            doc == doc_view(dom@),
            found == ids_view(ids@),
            found == style_elements(doc),
            forall|j: int| 0 <= j < ids@.len() ==> #[trigger] ids@[j] < dom@.len(),
            joined_style_texts(doc, found.take(k as int)) == Ok::<Seq<char>, StyleError>(total@),
        decreases ids@.len() - k,
    {
        let id = ids[k];
        let node = dom.get(id);
        proof {
            dom.lemma_wf();
            assert(found.take(k + 1).drop_last() =~= found.take(k as int));
            assert(found.take(k + 1).last() == id as int);
            assert(doc[id as int].children == ids_view(node.children@));
        }
        if k > 0 {
            total.append("\n");
        }
        match node.get_child(0) {
            Some(child) => {
                proof {
                    assert(child == node.children@[0]);
                    assert(doc[id as int].children[0] == child as int);
                    assert(doc[child as int].value == dom@[child as int].value@);
                }
                match &dom.get(child).value {
                    HTMLNode::Text(text) => {
                        total.append(text.as_str());
                    },
                    _ => {
                        proof {
                            assert(style_text(doc, id as int) is Err);
                            assert(joined_style_texts(doc, found.take(k + 1)) == Err::<
                                Seq<char>,
                                StyleError,
                            >(StyleError::InvalidCss));
                            lemma_joined_stuck(doc, found, k + 1);
                        }
                        return Err(StyleError::InvalidCss);
                    },
                }
            },
            None => {},
        }
        proof {
            reveal_strlit("\n");
            let front = joined_style_texts(doc, found.take(k as int))->Ok_0;
            let text = style_text(doc, id as int)->Ok_0;
            if k > 0 {
                assert("\n"@ =~= seq!['\n']);
                assert(total@ =~= front + seq!['\n'] + text);
            } else {
                assert(front =~= Seq::<char>::empty());
                assert(total@ =~= text);
            }
        }
        k += 1;
    }
    proof {
        assert(found.take(k as int) =~= found);
    }
    Ok(total)
}

/// One more rule block looked at: where its selector matches the node, its
/// declarations are applied on top of what earlier blocks gave.
pub open spec fn matching_step(node: DomView, applied: Applied, block: BlockView) -> Applied {
    if applied.error is Some {
        applied
    } else if node_matches(node, selector_of_text(block.selector)) {
        apply_rules(applied, block.rules)
    } else {
        applied
    }
}

/// The declarations of all rule blocks that match the node, merged in
/// source order: of two matching blocks that set one property, the later
/// one counts.
pub open spec fn matching_spec(node: DomView, blocks: Seq<BlockView>) -> Applied
    decreases blocks.len(),
{
    if blocks.len() == 0 {
        Applied { styles: Map::empty(), error: None }
    } else {
        matching_step(node, matching_spec(node, blocks.drop_last()), blocks.last())
    }
}

/// Once a rule block has failed, the later ones change nothing.
proof fn lemma_matching_stuck(node: DomView, blocks: Seq<BlockView>, n: int)
    requires
        0 <= n <= blocks.len(),
        matching_spec(node, blocks.take(n)).error is Some,
    ensures
        matching_spec(node, blocks) == matching_spec(node, blocks.take(n)),
    decreases blocks.len() - n,
{
    if n == blocks.len() {
        assert(blocks.take(n) =~= blocks);
    } else {
        assert(blocks.take(n + 1).drop_last() =~= blocks.take(n));
        lemma_matching_stuck(node, blocks, n + 1);
    }
}

/// Of the rule blocks that match a node the last one counts: where all
/// declarations can be read and the last block matches the node, a property
/// that this block declares has the value of the block's last declaration
/// of it, whatever the blocks before it declare.
pub proof fn lemma_later_block_wins(
    node: DomView,
    blocks: Seq<BlockView>,
    last: int,
    name: StyleName,
)
    requires
        blocks.len() > 0,
        matching_spec(node, blocks).error is None,
        node_matches(node, selector_of_text(blocks.last().selector)),
        0 <= last < blocks.last().rules.len(),
        property_of(blocks.last().rules[last].name) == Some(name),
        forall|j: int|
            last < j < blocks.last().rules.len() ==> property_of(
                #[trigger] blocks.last().rules[j].name,
            ) != Some(name),
    ensures
        matching_spec(node, blocks).styles.contains_key(name),
        matching_spec(node, blocks).styles[name] == parse_size_spec(
            blocks.last().rules[last].value,
        )->Ok_0,
{
    let before = matching_spec(node, blocks.drop_last());
    assert(matching_spec(node, blocks) == matching_step(node, before, blocks.last()));
    if before.error is None {
        lemma_last_declaration_counts(before, blocks.last().rules, last, name);
    }
}

/// The declarations of all rule blocks that match the node, merged in
/// source order.
pub fn matching_blocks(node: &DomNode, blocks: &Vec<CSSBlock>) -> (outcome: Result<
    StyleMap<PreComputedStyleValue>,
    StyleError,
>)
    ensures
        match outcome {
            Ok(styles) => matching_spec(node@, blocks_view(blocks@)) == (Applied {
                styles: styles@,
                error: None,
            }),
            Err(e) => matching_spec(node@, blocks_view(blocks@)).error == Some(e),
        },
{
    let ghost all = blocks_view(blocks@);
    let mut relevant_styles: StyleMap<PreComputedStyleValue> = StyleMap::new();
    proof {
        assert(relevant_styles@ =~= Map::empty());
        assert(all.take(0) =~= Seq::<BlockView>::empty());
    }
    let mut i: usize = 0;
    while i < blocks.len()
        invariant
            i <= blocks@.len(),
            all == blocks_view(blocks@),
            matching_spec(node@, all.take(i as int)) == (Applied {
                styles: relevant_styles@,
                error: None,
            }),
        decreases blocks@.len() - i,
    {
        let block = &blocks[i];
        proof {
            assert(all.take(i + 1).drop_last() =~= all.take(i as int));
            assert(all.take(i + 1).last() == block@);
        }
        let sel = Selector::parse(block.selector.as_str());
        if node.matches(&sel) {
            match append_ref(&mut relevant_styles, block) {
                Ok(_) => {},
                Err(e) => {
                    proof {
                        lemma_matching_stuck(node@, all, i + 1);
                    }
                    return Err(e);
                },
            }
        }
        i += 1;
    }
    proof {
        assert(all.take(i as int) =~= all);
    }
    Ok(relevant_styles)
}

/// A styled document under preparation: the nodes as prepared so far, and
/// the error that stopped the work, if one did.
pub struct Prepared {
    pub doc: Seq<StyledNode>,
    pub error: Option<StyleError>,
}

/// Node `id` prepared with the declarations of the rule blocks that match
/// it.
pub open spec fn prepare_one(doc: Seq<StyledNode>, id: int, blocks: Seq<BlockView>) -> Prepared {
    if 0 <= id < doc.len() {
        let global = matching_spec(doc[id].value, blocks);
        if global.error is Some {
            Prepared { doc, error: global.error }
        } else {
            let (value, error) = prepare_node_spec(doc[id].value, global.styles);
            Prepared { doc: doc.update(id, NodeModel { value, ..doc[id] }), error }
        }
    } else {
        Prepared { doc, error: None }
    }
}

/// The nodes at the positions of `order` prepared one after the other, up
/// to the first error.
pub open spec fn prepare_in_order(
    doc: Seq<StyledNode>,
    order: Seq<int>,
    blocks: Seq<BlockView>,
) -> Prepared
    decreases order.len(),
{
    if order.len() == 0 {
        Prepared { doc, error: None }
    } else {
        let before = prepare_in_order(doc, order.drop_last(), blocks);
        if before.error is Some {
            before
        } else {
            prepare_one(before.doc, order.last(), blocks)
        }
    }
}

/// The document with every node prepared, root first.
pub open spec fn prepare_all_spec(doc: Seq<StyledNode>, blocks: Seq<BlockView>) -> Prepared {
    prepare_in_order(doc, preorder(model_child_lists(doc), 0), blocks)
}

/// Once a node has failed, the later ones change nothing.
proof fn lemma_prepare_stuck(
    doc: Seq<StyledNode>,
    order: Seq<int>,
    blocks: Seq<BlockView>,
    n: int,
)
    requires
        0 <= n <= order.len(),
        prepare_in_order(doc, order.take(n), blocks).error is Some,
    ensures
        prepare_in_order(doc, order, blocks) == prepare_in_order(doc, order.take(n), blocks),
    decreases order.len() - n,
{
    if n == order.len() {
        assert(order.take(n) =~= order);
    } else {
        assert(order.take(n + 1).drop_last() =~= order.take(n));
        lemma_prepare_stuck(doc, order, blocks, n + 1);
    }
}

/// Preparing changes the style mappings of elements and nothing else: the
/// links stay, and an element stays an element.
pub proof fn lemma_prepare_keeps_links(doc: Seq<StyledNode>, order: Seq<int>, blocks: Seq<BlockView>)
    ensures
        prepare_in_order(doc, order, blocks).doc.len() == doc.len(),
        forall|i: int|
            0 <= i < doc.len() ==> {
                let after = #[trigger] prepare_in_order(doc, order, blocks).doc[i];
                &&& after.parent == doc[i].parent
                &&& after.children == doc[i].children
                &&& after.value is Element == doc[i].value is Element
            },
    decreases order.len(),
{
    if order.len() > 0 {
        lemma_prepare_keeps_links(doc, order.drop_last(), blocks);
        let before = prepare_in_order(doc, order.drop_last(), blocks);
        let result = prepare_in_order(doc, order, blocks);
        assert forall|i: int| 0 <= i < doc.len() implies {
            let after = #[trigger] result.doc[i];
            &&& after.parent == doc[i].parent
            &&& after.children == doc[i].children
            &&& after.value is Element == doc[i].value is Element
        } by {
            let mid = before.doc[i];
            assert(mid.parent == doc[i].parent);
        }
    }
}

/// A node that holds nothing, to stand in the store while a value is
/// worked on.
fn placeholder() -> (node: DomNode)
    ensures
        node@ == DomView::Root,
{
    DomNode::Root(RootElement::new())
}

/// Prepares every node of the subtree under the node at position 0, that
/// node first and the others in pre-order, each with the declarations of
/// the rule blocks that match it. The work stops at the first declaration
/// that cannot be read.
pub fn prepare_all(tree: &mut Tree<DomNode>, blocks: &Vec<CSSBlock>) -> (outcome: Result<
    (),
    StyleError,
>)
    ensures
        (Prepared { doc: tree_model(final(tree)@), error: error_of(outcome) }) == prepare_all_spec(
            tree_model(old(tree)@),
            blocks_view(blocks@),
        ),
{
    let ghost doc = tree_model(tree@);
    let ghost rules = blocks_view(blocks@);
    proof {
        lemma_model_child_lists(tree@);
    }
    if tree.len() == 0 {
        return Ok(());
    }
    let order = tree.preorder_ids(0);
    let ghost positions = ids_view(order@);
    proof {
        assert(positions.take(0) =~= Seq::<int>::empty());
    }
    let mut k: usize = 0;
    while k < order.len()
        invariant
            k <= order@.len(),
            positions == ids_view(order@),
            positions == preorder(model_child_lists(doc), 0),
            doc == tree_model(old(tree)@),
            rules == blocks_view(blocks@),
            tree@.len() == doc.len(),
            forall|j: int| 0 <= j < order@.len() ==> #[trigger] order@[j] < tree@.len(),
            prepare_in_order(doc, positions.take(k as int), rules) == (Prepared {
                doc: tree_model(tree@),
                error: None,
            }),
        decreases order@.len() - k,
    {
        let id = order[k];
        let ghost before = tree@;
        let ghost shown = tree_model(before);
        proof {
            assert(positions.take(k + 1).drop_last() =~= positions.take(k as int));
            assert(positions.take(k + 1).last() == id as int);
            assert(prepare_in_order(doc, positions.take(k + 1), rules) == prepare_one(
                shown,
                id as int,
                rules,
            ));
        }
        let mut value = tree.replace_value(id, placeholder());
        let ghost held = value@;
        assert(held == shown[id as int].value);
        match matching_blocks(&value, blocks) {
            Ok(relevant_styles) => {
                let prepared = value.prepare(&relevant_styles);
                let ghost fresh = value@;
                tree.replace_value(id, value);
                proof {
                    let target = shown.update(
                        id as int,
                        NodeModel { value: fresh, ..shown[id as int] },
                    );
                    assert forall|i: int| 0 <= i < target.len() implies tree_model(tree@)[i]
                        == target[i] by {
                        if i != id {
                            assert(tree@[i] == before[i]);
                        }
                    }
                    assert(tree_model(tree@) =~= target);
                }
                match prepared {
                    Ok(_) => {},
                    Err(e) => {
                        proof {
                            lemma_prepare_stuck(doc, positions, rules, k + 1);
                        }
                        return Err(e);
                    },
                }
            },
            Err(e) => {
                tree.replace_value(id, value);
                proof {
                    assert forall|i: int| 0 <= i < shown.len() implies tree_model(tree@)[i]
                        == shown[i] by {
                        if i != id {
                            assert(tree@[i] == before[i]);
                        }
                    }
                    assert(tree_model(tree@) =~= shown);
                    lemma_prepare_stuck(doc, positions, rules, k + 1);
                }
                return Err(e);
            },
        }
        k += 1;
    }
    proof {
        assert(positions.take(k as int) =~= positions);
    }
    Ok(())
}

/// What a list of resolved sizes holds.
pub open spec fn extents_view(extents: Seq<Option<Extent>>) -> Seq<Option<ExtentView>> {
    Seq::new(
        extents.len(),
        |i: int|
            match extents[i] {
                Some(e) => Some(e@),
                None => None,
            },
    )
}

/// The resolved size of every node of the subtree under the node at
/// position 0, in pre-order; a node that draws nothing has none.
pub open spec fn layout_spec(doc: Seq<StyledNode>) -> Seq<Option<ExtentView>> {
    let order = preorder(model_child_lists(doc), 0);
    Seq::new(order.len(), |k: int| compute_style_spec(doc, order[k]))
}

/// The resolved size of every node, in the order in which the nodes are
/// drawn.
pub fn layout(tree: &Tree<DomNode>) -> (extents: Vec<Option<Extent>>)
    requires
        elements_have_parents(tree_model(tree@)),
    ensures
        extents_view(extents@) == layout_spec(tree_model(tree@)),
{
    let ghost doc = tree_model(tree@);
    proof {
        lemma_model_child_lists(tree@);
    }
    let mut extents: Vec<Option<Extent>> = Vec::new();
    if tree.len() == 0 {
        proof {
            assert(extents_view(extents@) =~= layout_spec(doc));
        }
        return extents;
    }
    let order = tree.preorder_ids(0);
    let ghost positions = ids_view(order@);
    let mut k: usize = 0;
    while k < order.len()
        invariant
            k <= order@.len(),
            positions == ids_view(order@),
            doc == tree_model(tree@),
            elements_have_parents(doc),
            forall|j: int| 0 <= j < order@.len() ==> #[trigger] order@[j] < tree@.len(),
            extents@.len() == k,
            forall|j: int|
                0 <= j < k ==> #[trigger] extents_view(extents@)[j] == compute_style_spec(
                    doc,
                    positions[j],
                ),
        decreases order@.len() - k,
    {
        let id = order[k];
        let extent = compute_style(tree, id);
        let ghost before = extents_view(extents@);
        extents.push(extent);
        proof {
            assert(positions[k as int] == id as int);
            assert forall|j: int| 0 <= j < k + 1 implies #[trigger] extents_view(extents@)[j]
                == compute_style_spec(doc, positions[j]) by {
                if j < k {
                    assert(extents_view(extents@)[j] == before[j]);
                }
            }
        }
        k += 1;
    }
    proof {
        assert(extents_view(extents@) =~= layout_spec(doc));
    }
    extents
}

/// The resolved sizes of a document given as the bytes of its markup: the
/// document is built, its stylesheet is read from its `style` elements,
/// every node is prepared, and every node is resolved.
pub open spec fn style_document_spec(markup: Seq<u8>) -> Result<Seq<Option<ExtentView>>, StyleError> {
    let doc = document(markup);
    match embedded_stylesheet_spec(doc) {
        Err(e) => Err(e),
        Ok(css) => {
            let prepared = prepare_all_spec(styled_doc(doc), stylesheet(css));
            match prepared.error {
                Some(e) => Err(e),
                None => Ok(layout_spec(prepared.doc)),
            }
        },
    }
}

/// What the outcome of the style pass holds.
pub open spec fn layout_outcome(outcome: Result<Vec<Option<Extent>>, StyleError>) -> Result<
    Seq<Option<ExtentView>>,
    StyleError,
> {
    match outcome {
        Ok(extents) => Ok(extents_view(extents@)),
        Err(e) => Err(e),
    }
}

/// In the styled document of any markup every element has a parent.
pub proof fn lemma_document_is_rooted(markup: Seq<u8>)
    ensures
        elements_have_parents(styled_doc(document(markup))),
{
    let tokens = tokenize(chars_of_bytes(markup));
    lemma_build_shape(tokens);
    let doc = document(markup);
    let styled = styled_doc(doc);
    assert forall|i: int| 0 <= i < styled.len() && (#[trigger] styled[i]).value is Element implies styled[i].parent is Some by {
        if i > 0 {
            assert(doc[i].parent is Some);
        }
    }
}

/// The style pass follows the document: where it succeeds it gives one
/// entry for every node of the document, the entry at position `i` for the
/// node at position `i`, and the nodes stand in the order in which their
/// tokens came.
pub proof fn lemma_style_pass_follows_document(markup: Seq<u8>)
    ensures
        style_document_spec(markup) matches Ok(extents) ==> {
            let prepared = prepare_all_spec(
                styled_doc(document(markup)),
                stylesheet(embedded_stylesheet_spec(document(markup))->Ok_0),
            );
            &&& extents.len() == document(markup).len()
            &&& forall|i: int|
                0 <= i < extents.len() ==> #[trigger] extents[i] == compute_style_spec(
                    prepared.doc,
                    i,
                )
        },
{
    let doc = document(markup);
    if style_document_spec(markup) is Ok {
        let css = embedded_stylesheet_spec(doc)->Ok_0;
        let start = styled_doc(doc);
        let order = preorder(model_child_lists(start), 0);
        let prepared = prepare_all_spec(start, stylesheet(css));
        lemma_prepare_keeps_links(start, order, stylesheet(css));
        assert(model_child_lists(prepared.doc) =~= model_child_lists(doc));
        assert(model_child_lists(start) =~= model_child_lists(doc));
        lemma_document_order(tokenize(chars_of_bytes(markup)));
    }
}

/// The style pass over a whole document: the resolved size of every node
/// of the document that `html` writes, root first, in pre-order, which for
/// a document is the order of the nodes' positions.
pub fn style_document(html: &str) -> (outcome: Result<Vec<Option<Extent>>, StyleError>)
    ensures
        layout_outcome(outcome) == style_document_spec(html.spec_bytes()),
{
    let dom_tree = crate::parse_html_new(html);
    let mut annotated_tree = annotate(&dom_tree);
    let total_style = match embedded_stylesheet(&dom_tree) {
        Ok(text) => text,
        Err(e) => {
            return Err(e);
        },
    };
    let total_style_blocks = crate::parse_css(total_style.as_str());
    let ghost start = tree_model(annotated_tree@);
    match prepare_all(&mut annotated_tree, &total_style_blocks) {
        Ok(_) => {},
        Err(e) => {
            return Err(e);
        },
    }
    proof {
        lemma_document_is_rooted(html.spec_bytes());
        let order = preorder(model_child_lists(start), 0);
        lemma_prepare_keeps_links(start, order, blocks_view(total_style_blocks@));
        let done = tree_model(annotated_tree@);
        assert forall|i: int| 0 <= i < done.len() && (#[trigger] done[i]).value is Element implies done[i].parent is Some by {
            assert(start[i].value is Element);
        }
    }
    Ok(layout(&annotated_tree))
}

} // verus!
