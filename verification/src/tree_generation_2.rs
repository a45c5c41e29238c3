//! The document tree builder: turns the flat token stream into a tree of
//! document nodes, keeping a cursor on the element that is currently open.
//!
//! End tags carry no name, so an end tag closes whatever element is open,
//! and an end tag at the root does nothing.

use vstd::prelude::*;
use crate::attrs::Attributes;
use crate::tag_parse::{HTMLChild, Token, tokens_view};
use crate::tree::{
    ids_view,
    lemma_preorder_before_agrees,
    lemma_preorder_split,
    model_child_lists,
    preorder,
    preorder_before,
    preorder_children,
    tree_model,
    NodeModel,
    Tree,
    TreeNode,
};

verus! {

/// What an element holds: its tag name and its attributes.
pub struct ElementView {
    pub tagname: Seq<char>,
    pub attributes: Map<Seq<char>, Seq<char>>,
}

/// An element of the document.
#[derive(Debug)]
pub struct HTMLElement {
    attributes: Attributes,
    tagname: String,
}

impl View for HTMLElement {
    type V = ElementView;

    closed spec fn view(&self) -> ElementView {
        ElementView { tagname: self.tagname@, attributes: self.attributes@ }
    }
}

impl HTMLElement {
    /// An element with the given tag name and attributes.
    pub fn new(tagname: String, attributes: Attributes) -> (element: HTMLElement)
        ensures
            element@ == (ElementView { tagname: tagname@, attributes: attributes@ }),
    {
        HTMLElement { tagname, attributes }
    }

    /// The element's attributes.
    pub fn attributes(&self) -> (attributes: &Attributes)
        ensures
            attributes@ == self@.attributes,
    {
        &self.attributes
    }

    /// The element's tag name.
    pub fn tagname(&self) -> (tagname: &String)
        ensures
            tagname@ == self@.tagname,
    {
        &self.tagname
    }

    /// Whether the tag name is exactly `name`.
    pub fn is_tag(&self, name: &String) -> (same: bool)
        ensures
            same == (self@.tagname == name@),
    {
        self.tagname == *name
    }

    /// Whether the element has an attribute called `name`.
    pub fn has_attribute(&self, name: &String) -> (found: bool)
        ensures
            found == self@.attributes.contains_key(name@),
    {
        self.attributes.contains_key(name)
    }

    /// The value of the attribute called `name`, if the element has one.
    pub fn get_attribute(&self, name: &String) -> (value: Option<&String>)
        ensures
            match value {
                Some(v) => self@.attributes.contains_key(name@) && self@.attributes[name@] == v@,
                None => !self@.attributes.contains_key(name@),
            },
    {
        self.attributes.get(name)
    }

    /// The value of the attribute called `name`, which the element has.
    pub fn get_attribute_unwrapped(&self, name: &String) -> (value: &String)
        requires
            self@.attributes.contains_key(name@),
        ensures
            value@ == self@.attributes[name@],
    {
        self.attributes.get(name).unwrap()
    }
}

impl Clone for HTMLElement {
    fn clone(&self) -> (copy: HTMLElement)
        ensures
            copy@ == self@,
    {
        HTMLElement { attributes: self.attributes.clone(), tagname: self.tagname.clone() }
    }
}

/// What a document node holds.
pub enum NodeValue {
    Root,
    Text(Seq<char>),
    Element(ElementView),
}

/// The value of a node of the document tree.
#[derive(Debug)]
pub enum HTMLNode {
    Root,
    Text(String),
    Element(HTMLElement),
}

impl View for HTMLNode {
    type V = NodeValue;

    open spec fn view(&self) -> NodeValue {
        match self {
            HTMLNode::Root => NodeValue::Root,
            HTMLNode::Text(content) => NodeValue::Text(content@),
            HTMLNode::Element(element) => NodeValue::Element(element@),
        }
    }
}

/// A node of a document tree, over plain values.
pub type DocNode = NodeModel<NodeValue>;

/// What a document tree holds, node by node.
pub open spec fn doc_view(nodes: Seq<TreeNode<HTMLNode>>) -> Seq<DocNode> {
    tree_model(nodes)
}

/// The builder between two tokens: the nodes made so far and the position
/// of the open element.
pub struct BuildState {
    pub nodes: Seq<DocNode>,
    pub current: int,
}

/// The builder before any token: a lone root, which is open.
pub open spec fn initial_build() -> BuildState {
    BuildState {
        nodes: seq![NodeModel { value: NodeValue::Root, parent: None, children: Seq::empty() }],
        current: 0,
    }
}

/// The nodes with one more node holding `value`, made the newest child of
/// `parent`.
pub open spec fn attach(nodes: Seq<DocNode>, parent: int, value: NodeValue) -> Seq<DocNode> {
    let id = nodes.len() as int;
    nodes.update(
        parent,
        NodeModel { children: nodes[parent].children.push(id), ..nodes[parent] },
    ).push(NodeModel { value, parent: Some(parent), children: Seq::empty() })
}

/// The builder after one more token.
pub open spec fn build_step(state: BuildState, token: Token) -> BuildState {
    match token {
        Token::StartTag(tag) => BuildState {
            nodes: attach(
                state.nodes,
                state.current,
                NodeValue::Element(ElementView { tagname: tag.name, attributes: tag.attrs }),
            ),
            current: if tag.self_close {
                state.current
            } else {
                state.nodes.len() as int
            },
        },
        Token::EndTag => BuildState {
            nodes: state.nodes,
            current: match state.nodes[state.current].parent {
                Some(p) => p,
                None => state.current,
            },
        },
        Token::Text(content) => BuildState {
            nodes: attach(state.nodes, state.current, NodeValue::Text(content)),
            current: state.current,
        },
    }
}

/// The builder after the given tokens, taken in order.
pub open spec fn build(tokens: Seq<Token>) -> BuildState
    decreases tokens.len(),
{
    if tokens.len() == 0 {
        initial_build()
    } else {
        build_step(build(tokens.drop_last()), tokens.last())
    }
}

/// The shape of what the builder makes: the node at position 0 is the
/// root and the only one; every other node has a parent that stands before
/// it; and the open node is the root or an element.
pub open spec fn built_shape(state: BuildState) -> bool {
    &&& 0 <= state.current < state.nodes.len()
    &&& state.nodes[0].value is Root
    &&& state.nodes[0].parent is None
    &&& forall|i: int|
        0 < i < state.nodes.len() ==> {
            &&& (#[trigger] state.nodes[i]).parent matches Some(p) && 0 <= p < i
            &&& !(state.nodes[i].value is Root)
        }
    &&& !(state.nodes[state.current].value is Text)
}

/// The builder keeps its shape whatever the tokens are.
pub proof fn lemma_build_shape(tokens: Seq<Token>)
    ensures
        built_shape(build(tokens)),
    decreases tokens.len(), 0int,
{
    if tokens.len() > 0 {
        lemma_build_shape(tokens.drop_last());
        let before = build(tokens.drop_last());
        let after = build(tokens);
        assert(after == build_step(before, tokens.last()));
        match tokens.last() {
            Token::EndTag => {
                if before.current > 0 {
                    assert(before.nodes[before.current].parent is Some);
                    let p = before.nodes[before.current].parent->0;
                    if p > 0 {
                        assert(before.nodes[p].parent is Some);
                    }
                    lemma_parent_is_no_text(tokens.drop_last(), before.current);
                }
            },
            _ => {
                assert forall|i: int| 0 < i < after.nodes.len() implies {
                    &&& (#[trigger] after.nodes[i]).parent matches Some(p) && 0 <= p < i
                    &&& !(after.nodes[i].value is Root)
                } by {
                    if i < before.nodes.len() {
                        assert(before.nodes[i].parent is Some);
                    }
                }
            },
        }
    }
}

/// No node has a text node as its parent.
proof fn lemma_parent_is_no_text(tokens: Seq<Token>, i: int)
    requires
        0 <= i < build(tokens).nodes.len(),
        build(tokens).nodes[i].parent is Some,
    ensures
        0 <= build(tokens).nodes[i].parent->0 < i,
        !(build(tokens).nodes[build(tokens).nodes[i].parent->0].value is Text),
    decreases tokens.len(), 1int,
{
    lemma_build_shape(tokens);
    if tokens.len() > 0 {
        let before = build(tokens.drop_last());
        let after = build(tokens);
        lemma_build_shape(tokens.drop_last());
        assert(after == build_step(before, tokens.last()));
        if i < before.nodes.len() {
            if after.nodes.len() == before.nodes.len() {
                lemma_parent_is_no_text(tokens.drop_last(), i);
            } else {
                assert(after.nodes[i].parent == before.nodes[i].parent);
                lemma_parent_is_no_text(tokens.drop_last(), i);
                let p = before.nodes[i].parent->0;
                assert(after.nodes[p].value == before.nodes[p].value);
            }
        } else {
            assert(after.nodes[i].parent == Some(before.current));
            assert(after.nodes[before.current].value == before.nodes[before.current].value);
        }
    }
}

/// The number of proper ancestors of node `i` that are elements.
pub open spec fn element_ancestors(doc: Seq<DocNode>, i: int) -> nat
    decreases i,
{
    if 0 <= i < doc.len() {
        match doc[i].parent {
            Some(p) => if 0 <= p < i {
                (if doc[p].value is Element {
                    1nat
                } else {
                    0nat
                }) + element_ancestors(doc, p)
            } else {
                0
            },
            None => 0,
        }
    } else {
        0
    }
}

/// The number of start tags among `tokens` that no later end tag among
/// them has closed. A start tag that closes itself is never open, and an
/// end tag with nothing open closes nothing.
pub open spec fn open_depth(tokens: Seq<Token>) -> nat
    decreases tokens.len(),
{
    if tokens.len() == 0 {
        0
    } else {
        let depth = open_depth(tokens.drop_last());
        match tokens.last() {
            Token::StartTag(tag) => if tag.self_close {
                depth
            } else {
                depth + 1
            },
            Token::EndTag => if depth > 0 {
                (depth - 1) as nat
            } else {
                0
            },
            Token::Text(_) => depth,
        }
    }
}

/// The number of nodes that `tokens` make: one for each start tag and each
/// text.
pub open spec fn node_count(tokens: Seq<Token>) -> nat
    decreases tokens.len(),
{
    if tokens.len() == 0 {
        0
    } else {
        node_count(tokens.drop_last()) + (if tokens.last() is EndTag {
            0nat
        } else {
            1nat
        })
    }
}

/// The element ancestors of a node depend only on the values and parents of
/// the nodes that stand before it.
proof fn lemma_element_ancestors_agree(a: Seq<DocNode>, b: Seq<DocNode>, i: int)
    requires
        0 <= i < a.len() <= b.len(),
        forall|j: int|
            0 <= j <= i ==> (#[trigger] a[j]).value == b[j].value && a[j].parent == b[j].parent,
    ensures
        element_ancestors(a, i) == element_ancestors(b, i),
    decreases i,
{
    match a[i].parent {
        Some(p) => {
            if 0 <= p < i {
                assert(a[p].value == b[p].value);
                lemma_element_ancestors_agree(a, b, p);
            }
        },
        None => {},
    }
}

/// Later tokens leave the value and the parent of every node that earlier
/// tokens made as they are.
proof fn lemma_build_keeps_nodes(tokens: Seq<Token>, k: int)
    requires
        0 <= k <= tokens.len(),
    ensures
        build(tokens.take(k)).nodes.len() <= build(tokens).nodes.len(),
        forall|j: int|
            0 <= j < build(tokens.take(k)).nodes.len() ==> {
                &&& (#[trigger] build(tokens).nodes[j]).value == build(tokens.take(k)).nodes[j].value
                &&& build(tokens).nodes[j].parent == build(tokens.take(k)).nodes[j].parent
            },
    decreases tokens.len(),
{
    if k == tokens.len() {
        assert(tokens.take(k) =~= tokens);
    } else {
        let front = tokens.drop_last();
        assert(front.take(k) =~= tokens.take(k));
        lemma_build_keeps_nodes(front, k);
        lemma_build_shape(front);
        assert(build(tokens) == build_step(build(front), tokens.last()));
    }
}

/// The builder's count: the nodes made are the root and one node for each
/// start tag and each text, and the open node lies as deep as there are
/// unclosed start tags.
proof fn lemma_build_depth(tokens: Seq<Token>)
    ensures
        build(tokens).nodes.len() == 1 + node_count(tokens),
        element_ancestors(build(tokens).nodes, build(tokens).current) + (if build(
            tokens,
        ).nodes[build(tokens).current].value is Element {
            1nat
        } else {
            0nat
        }) == open_depth(tokens),
    decreases tokens.len(),
{
    if tokens.len() > 0 {
        let front = tokens.drop_last();
        lemma_build_depth(front);
        lemma_build_shape(front);
        lemma_build_shape(tokens);
        let before = build(front);
        let after = build(tokens);
        assert(after == build_step(before, tokens.last()));
        let cur = before.current;
        match tokens.last() {
            Token::EndTag => {
                if cur > 0 {
                    assert(before.nodes[cur].parent is Some);
                } else {
                    assert(before.nodes[0].parent is None);
                }
            },
            Token::StartTag(tag) => {
                let id = before.nodes.len() as int;
                lemma_element_ancestors_agree(before.nodes, after.nodes, cur);
                assert(after.nodes[id].parent == Some(cur));
                assert(after.nodes[cur].value == before.nodes[cur].value);
            },
            Token::Text(_) => {
                lemma_element_ancestors_agree(before.nodes, after.nodes, cur);
            },
        }
    }
}

/// The depth rule of the builder: the node that the token at position `k`
/// makes has as many element ancestors as there are unclosed start tags
/// among the tokens before it.
pub proof fn lemma_depth_of_node(tokens: Seq<Token>, k: int)
    requires
        0 <= k < tokens.len(),
        !(tokens[k] is EndTag),
    ensures
        1 + node_count(tokens.take(k)) < build(tokens).nodes.len(),
        element_ancestors(build(tokens).nodes, 1 + node_count(tokens.take(k)) as int) == open_depth(
            tokens.take(k),
        ),
{
    let front = tokens.take(k);
    let upto = tokens.take(k + 1);
    assert(upto.drop_last() =~= front);
    assert(upto.last() == tokens[k]);
    lemma_build_depth(front);
    lemma_build_shape(front);
    let before = build(front);
    let made = build(upto);
    assert(made == build_step(before, tokens[k]));
    let id = before.nodes.len() as int;
    let cur = before.current;
    lemma_element_ancestors_agree(before.nodes, made.nodes, cur);
    assert(made.nodes[id].parent == Some(cur));
    assert(made.nodes[cur].value == before.nodes[cur].value);
    assert(element_ancestors(made.nodes, id) == open_depth(front));
    lemma_build_keeps_nodes(tokens, k + 1);
    lemma_element_ancestors_agree(made.nodes, build(tokens).nodes, id);
}

/// The positions from `lo` up to, not including, `hi`, in order.
pub open spec fn positions(lo: int, hi: int) -> Seq<int> {
    Seq::new((hi - lo) as nat, |t: int| lo + t)
}

/// Every child stands after its parent in the store.
spec fn children_follow(nodes: Seq<DocNode>) -> bool {
    forall|z: int, j: int|
        0 <= z < nodes.len() && 0 <= j < nodes[z].children.len() ==> z < (
        #[trigger] nodes[z].children[j]) < nodes.len()
}

/// In a built document every child stands after its parent.
proof fn lemma_build_children(tokens: Seq<Token>)
    ensures
        children_follow(build(tokens).nodes),
    decreases tokens.len(),
{
    if tokens.len() > 0 {
        lemma_build_children(tokens.drop_last());
        lemma_build_shape(tokens.drop_last());
        let before = build(tokens.drop_last());
        let after = build(tokens);
        assert(after == build_step(before, tokens.last()));
        if !(tokens.last() is EndTag) {
            let cur = before.current;
            let id = before.nodes.len() as int;
            assert forall|z: int, j: int|
                0 <= z < after.nodes.len() && 0 <= j < after.nodes[z].children.len() implies z < (
            #[trigger] after.nodes[z].children[j]) < after.nodes.len() by {
                if z == cur {
                    if j < before.nodes[z].children.len() {
                        assert(after.nodes[z].children[j] == before.nodes[z].children[j]);
                    }
                } else if z < id {
                    assert(after.nodes[z].children[j] == before.nodes[z].children[j]);
                }
            }
        }
    }
}

/// Node `x` is open: the nodes from `x` on are exactly its subtree, in
/// pre-order, and `x` is the root or the newest child of an open node.
spec fn spine(nodes: Seq<DocNode>, x: int) -> bool
    decreases x,
{
    &&& 0 <= x < nodes.len()
    &&& preorder(model_child_lists(nodes), x) == positions(x, nodes.len() as int)
    &&& (x == 0 || (nodes[x].parent matches Some(p) && 0 <= p < x && nodes[p].children.len() > 0
        && nodes[p].children.last() == x && spine(nodes, p)))
}

/// The subtree of the root of a document with an open node is the whole
/// document, in the order of the positions.
proof fn lemma_spine_root(nodes: Seq<DocNode>, x: int)
    requires
        spine(nodes, x),
    ensures
        preorder(model_child_lists(nodes), 0) == positions(0, nodes.len() as int),
    decreases x,
{
    if x != 0 {
        lemma_spine_root(nodes, nodes[x].parent->0);
    }
}

/// Adding a node under an open node leaves open what was open: where the
/// subtree of `x` has grown by the new node, so have the subtrees of the
/// ancestors of `x`.
proof fn lemma_spine_grows(nodes: Seq<DocNode>, grown: Seq<DocNode>, cur: int, x: int)
    requires
        children_follow(nodes),
        spine(nodes, x),
        0 <= x <= cur < nodes.len(),
        grown.len() == nodes.len() + 1,
        forall|z: int|
            0 <= z < nodes.len() ==> (#[trigger] grown[z]).parent == nodes[z].parent && (z != cur
                ==> grown[z].children == nodes[z].children),
        preorder(model_child_lists(grown), x) == positions(x, grown.len() as int),
    ensures
        spine(grown, x),
    decreases x,
{
    if x != 0 {
        let p = nodes[x].parent->0;
        let lists = model_child_lists(nodes);
        let more = model_child_lists(grown);
        let n = nodes.len() as int;
        let r = lists[p].len() - 1;
        assert(lists[p][r] == x);
        assert(more[p] == lists[p]);
        assert forall|z: int, j: int| 0 <= z < lists.len() && 0 <= j < lists[z].len() implies z
            < #[trigger] lists[z][j] < lists.len() by {
            assert(lists[z][j] == nodes[z].children[j]);
        }
        assert forall|j: int| 0 <= j < more[p].len() implies p < #[trigger] more[p][j] < more.len() by {
            assert(more[p][j] == lists[p][j]);
        }
        lemma_preorder_split(lists, p, r);
        lemma_preorder_split(more, p, r);
        let before = preorder_before(lists, p, r);
        assert(preorder_children(lists, p, r + 1) =~= Seq::<int>::empty());
        assert(preorder_children(more, p, r + 1) =~= Seq::<int>::empty());
        assert(preorder_children(lists, p, r) =~= positions(x, n));
        assert(preorder_children(more, p, r) =~= positions(x, n + 1));
        let whole = preorder(lists, p);
        assert(whole == seq![p] + (before + positions(x, n)));
        assert(spine(nodes, p));
        assert(whole == positions(p, n));
        assert(whole.len() == n - p);
        assert(before.len() == x - p - 1);
        assert forall|t: int| 0 <= t < before.len() implies #[trigger] before[t] == p + 1 + t by {
            assert(whole[t + 1] == before[t]);
        }
        assert forall|t: int| 0 <= t < before.len() implies more[#[trigger] before[t]]
            == lists[before[t]] by {
            assert(before[t] == p + 1 + t);
            assert(grown[before[t]].children == nodes[before[t]].children);
        }
        lemma_preorder_before_agrees(lists, more, p, r);
        assert(preorder(more, p) =~= positions(p, n + 1));
        lemma_spine_grows(nodes, grown, cur, p);
    }
}

/// Adding a node as the newest child of an open node keeps that node open
/// and makes the new node open.
proof fn lemma_attach_spine(nodes: Seq<DocNode>, cur: int, value: NodeValue)
    requires
        children_follow(nodes),
        spine(nodes, cur),
    ensures
        spine(attach(nodes, cur, value), cur),
        spine(attach(nodes, cur, value), nodes.len() as int),
{
    let grown = attach(nodes, cur, value);
    let lists = model_child_lists(nodes);
    let more = model_child_lists(grown);
    let n = nodes.len() as int;
    let r = lists[cur].len() as int;
    assert(more[cur] =~= lists[cur].push(n));
    assert(more[n] =~= Seq::<int>::empty());
    assert forall|z: int, j: int| 0 <= z < lists.len() && 0 <= j < lists[z].len() implies z
        < #[trigger] lists[z][j] < lists.len() by {
        assert(lists[z][j] == nodes[z].children[j]);
    }
    assert forall|j: int| 0 <= j < more[cur].len() implies cur < #[trigger] more[cur][j]
        < more.len() by {
        if j < r {
            assert(more[cur][j] == lists[cur][j]);
        }
    }
    lemma_preorder_split(lists, cur, r);
    lemma_preorder_split(more, cur, r);
    let before = preorder_before(lists, cur, r);
    assert(preorder_children(lists, cur, r) =~= Seq::<int>::empty());
    assert(preorder_children(more, n, 0) =~= Seq::<int>::empty());
    assert(preorder(more, n) =~= seq![n]);
    assert(preorder_children(more, cur, r + 1) =~= Seq::<int>::empty());
    assert(preorder_children(more, cur, r) =~= seq![n]);
    let whole = preorder(lists, cur);
    assert(whole == seq![cur] + (before + Seq::<int>::empty()));
    assert(whole == positions(cur, n));
    assert(whole.len() == n - cur);
    assert(before.len() == n - cur - 1);
    assert forall|t: int| 0 <= t < before.len() implies #[trigger] before[t] == cur + 1 + t by {
        assert(whole[t + 1] == before[t]);
    }
    assert forall|t: int| 0 <= t < before.len() implies more[#[trigger] before[t]]
        == lists[before[t]] by {
        assert(before[t] == cur + 1 + t);
    }
    assert forall|j: int| 0 <= j < r implies #[trigger] more[cur][j] == lists[cur][j] by {}
    lemma_preorder_before_agrees(lists, more, cur, r);
    assert(preorder(more, cur) =~= positions(cur, n + 1));
    lemma_spine_grows(nodes, grown, cur, cur);
    assert(preorder(more, n) =~= positions(n, n + 1));
}

/// The node that the builder holds open is open.
proof fn lemma_build_spine(tokens: Seq<Token>)
    ensures
        spine(build(tokens).nodes, build(tokens).current),
    decreases tokens.len(),
{
    if tokens.len() == 0 {
        let nodes = initial_build().nodes;
        let lists = model_child_lists(nodes);
        assert(lists[0] =~= Seq::<int>::empty());
        assert(preorder_children(lists, 0, 0) =~= Seq::<int>::empty());
        assert(preorder(lists, 0) =~= positions(0, 1));
    } else {
        let front = tokens.drop_last();
        lemma_build_spine(front);
        lemma_build_children(front);
        lemma_build_shape(front);
        let before = build(front);
        assert(build(tokens) == build_step(before, tokens.last()));
        match tokens.last() {
            Token::EndTag => {},
            Token::StartTag(tag) => {
                lemma_attach_spine(
                    before.nodes,
                    before.current,
                    NodeValue::Element(ElementView { tagname: tag.name, attributes: tag.attrs }),
                );
            },
            Token::Text(content) => {
                lemma_attach_spine(before.nodes, before.current, NodeValue::Text(content));
            },
        }
    }
}

/// Document order: the pre-order of a built document from its root lists
/// every node, in the order of the positions. The nodes stand in the store
/// in the order in which their tokens came.
pub proof fn lemma_document_order(tokens: Seq<Token>)
    ensures
        preorder(model_child_lists(build(tokens).nodes), 0) == positions(
            0,
            build(tokens).nodes.len() as int,
        ),
{
    lemma_build_spine(tokens);
    lemma_spine_root(build(tokens).nodes, build(tokens).current);
}

/// Adds a node holding `value` as the newest child of `parent`.
pub(crate) fn attach_node<T: View<V = NodeValue>>(tree: &mut Tree<T>, parent: usize, value: T) -> (id:
    usize)
    requires
        parent < old(tree)@.len(),
    ensures
        id == old(tree)@.len(),
        final(tree)@.len() == old(tree)@.len() + 1,
        tree_model(final(tree)@) == attach(tree_model(old(tree)@), parent as int, value@),
{
    proof {
        use_type_invariant(&*tree);
        tree.lemma_wf();
    }
    let node = TreeNode::new(value, parent);
    let id = tree.insert(node);
    proof {
        assert forall|k: int| 0 <= k < tree@[parent as int].children@.len() implies tree@[parent as int].children@[k]
            != id by {
            let c = old(tree)@[parent as int].children@[k];
            assert(c < old(tree)@.len());
        }
    }
    let ghost mid = tree@;
    tree.add_child(parent, id);
    proof {
        let before = tree_model(old(tree)@);
        let after = tree_model(tree@);
        let target = attach(before, parent as int, value@);
        assert(after.len() == target.len());
        assert forall|i: int| 0 <= i < after.len() implies after[i] == target[i] by {
            if i == parent {
                assert(ids_view(tree@[i].children@) =~= ids_view(old(tree)@[i].children@).push(id as int));
            } else if i == id {
                assert(tree@[i] == mid[i]);
                assert(ids_view(tree@[i].children@) =~= Seq::<int>::empty());
            } else {
                assert(tree@[i] == mid[i]);
            }
        }
        assert(after =~= target);
    }
    id
}

/// Builds the document tree of the given tokens. The root of the document
/// is the node at position 0.
pub fn create_node_tree(tags: Vec<HTMLChild>) -> (tree: Tree<HTMLNode>)
    ensures
        doc_view(tree@) == build(tokens_view(tags@)).nodes,
{
    let mut tree: Tree<HTMLNode> = Tree::new();
    let root = tree.insert(TreeNode::root(HTMLNode::Root));
    let mut parent: usize = root;
    let ghost tokens = tokens_view(tags@);
    proof {
        assert(doc_view(tree@) =~= initial_build().nodes) by {
            assert(ids_view(tree@[0].children@) =~= Seq::<int>::empty());
        }
        assert(tokens.take(0) =~= Seq::<Token>::empty());
    }
    let mut i: usize = 0;
    while i < tags.len()
        invariant
            i <= tags@.len(),
            tokens == tokens_view(tags@),
            parent < tree@.len(),
            doc_view(tree@) == build(tokens.take(i as int)).nodes,
            parent as int == build(tokens.take(i as int)).current,
        decreases tags@.len() - i,
    {
        proof {
            assert(tokens.take(i + 1).drop_last() =~= tokens.take(i as int));
            assert(tokens.take(i + 1).last() == tags@[i as int]@);
        }
        match &tags[i] {
            HTMLChild::StartTag(tag) => {
                let is_close = tag.is_self_close();
                let inner_element = HTMLNode::Element(
                    HTMLElement::new(tag.clone_name(), tag.clone_attrs()),
                );
                let element = attach_node(&mut tree, parent, inner_element);
                if !is_close {
                    parent = element;
                }
            },
            HTMLChild::EndTag(_) => {
                match tree.get(parent).get_parent() {
                    Some(new_parent) => {
                        proof {
                            tree.lemma_wf();
                        }
                        parent = new_parent;
                    },
                    None => {},
                }
            },
            HTMLChild::Text(string) => {
                let inner_element = HTMLNode::Text(string.clone());
                attach_node(&mut tree, parent, inner_element);
            },
        }
        i += 1;
    }
    proof {
        assert(tokens.take(i as int) =~= tokens);
    }
    tree
}

} // verus!
