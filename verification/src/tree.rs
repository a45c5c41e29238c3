//! An index-addressed tree.
//!
//! All nodes live in one owning store, a [`Tree`]. A node names its parent
//! and its children by their positions in that store, so the upward link
//! never owns anything and no reference cycle can arise. A node is created
//! detached, naming its parent, and becomes reachable from that parent once
//! it is added to the parent's child list.

use vstd::prelude::*;

verus! {

/// One node: a value, the position of its parent (none for a root) and the
/// positions of its children in insertion order.
#[derive(Debug)]
pub struct TreeNode<T> {
    pub value: T,
    pub parent: Option<usize>,
    pub children: Vec<usize>,
}

impl<T> TreeNode<T> {
    /// A node without children whose parent is the node at `parent`.
    pub fn new(value: T, parent: usize) -> (node: TreeNode<T>)
        ensures
            node.value == value,
            node.parent == Some(parent),
            node.children@ == Seq::<usize>::empty(),
    {
        TreeNode { value, parent: Some(parent), children: Vec::new() }
    }

    /// A node without children and without a parent.
    pub fn root(value: T) -> (node: TreeNode<T>)
        ensures
            node.value == value,
            node.parent is None,
            node.children@ == Seq::<usize>::empty(),
    {
        TreeNode { value, parent: None, children: Vec::new() }
    }

    /// Appends `child` to the child list; value and parent stay as they are.
    pub fn add_child(&mut self, child: usize)
        ensures
            final(self).children@ == old(self).children@.push(child),
            final(self).value == old(self).value,
            final(self).parent == old(self).parent,
    {
        self.children.push(child);
    }

    /// The position of the `idx`-th child, or `None` past the last child.
    pub fn get_child(&self, idx: usize) -> (child: Option<usize>)
        ensures
            child == (if idx < self.children@.len() {
                Some(self.children@[idx as int])
            } else {
                None
            }),
    {
        if idx < self.children.len() {
            Some(self.children[idx])
        } else {
            None
        }
    }

    /// The position of the parent, or `None` for a root.
    pub fn get_parent(&self) -> (parent: Option<usize>)
        ensures
            parent == self.parent,
    {
        self.parent
    }
}

/// The shape rule of a store: a parent stands before its children, a child
/// list holds no position twice, and every listed child names the listing
/// node as its parent.
pub open spec fn forest<T>(nodes: Seq<TreeNode<T>>) -> bool {
    &&& forall|i: int|
        0 <= i < nodes.len() ==> ((#[trigger] nodes[i]).parent matches Some(p) ==> p < i)
    &&& forall|i: int, k: int|
        0 <= i < nodes.len() && 0 <= k < nodes[i].children@.len() ==> {
            let c = #[trigger] nodes[i].children@[k];
            i < c < nodes.len() && nodes[c as int].parent == Some(i as usize)
        }
    &&& forall|i: int, k: int, l: int|
        0 <= i < nodes.len() && 0 <= k < l < nodes[i].children@.len() ==> #[trigger] nodes[i].children@[k]
            != #[trigger] nodes[i].children@[l]
}

/// The positions of the subtree under `i` in pre-order, given the child
/// list of every node: `i` first, then the subtree of each child in
/// child-list order.
pub open spec fn preorder(lists: Seq<Seq<int>>, i: int) -> Seq<int>
    decreases lists.len() - i, 1int, 0int,
{
    if 0 <= i < lists.len() {
        seq![i] + preorder_children(lists, i, 0)
    } else {
        Seq::empty()
    }
}

/// The pre-order of the subtrees of the children of `i` from the `k`-th on.
pub open spec fn preorder_children(lists: Seq<Seq<int>>, i: int, k: int) -> Seq<int>
    decreases lists.len() - i, 0int, lists[i].len() - k,
{
    if 0 <= i < lists.len() && 0 <= k < lists[i].len() {
        let c = lists[i][k];
        if i < c < lists.len() {
            preorder(lists, c) + preorder_children(lists, i, k + 1)
        } else {
            preorder_children(lists, i, k + 1)
        }
    } else {
        Seq::empty()
    }
}

/// Every position that pre-order reports lies in the store, at or after
/// the position it started from.
pub proof fn lemma_preorder_in_range(lists: Seq<Seq<int>>, i: int)
    ensures
        forall|k: int|
            0 <= k < preorder(lists, i).len() ==> i <= #[trigger] preorder(lists, i)[k]
                < lists.len(),
    decreases lists.len() - i, 1int, 0int,
{
    if 0 <= i < lists.len() {
        lemma_preorder_children_in_range(lists, i, 0);
        let rest = preorder_children(lists, i, 0);
        assert forall|k: int| 0 <= k < preorder(lists, i).len() implies i <= #[trigger] preorder(
            lists,
            i,
        )[k] < lists.len() by {
            if k > 0 {
                assert(preorder(lists, i)[k] == rest[k - 1]);
            }
        }
    }
}

/// Every position that the pre-order of a child range reports lies in the
/// store, after the position of the parent.
pub proof fn lemma_preorder_children_in_range(lists: Seq<Seq<int>>, i: int, k: int)
    ensures
        forall|j: int|
            0 <= j < preorder_children(lists, i, k).len() ==> i < #[trigger] preorder_children(
                lists,
                i,
                k,
            )[j] < lists.len(),
    decreases lists.len() - i, 0int, lists[i].len() - k,
{
    if 0 <= i < lists.len() && 0 <= k < lists[i].len() {
        let c = lists[i][k];
        lemma_preorder_children_in_range(lists, i, k + 1);
        let rest = preorder_children(lists, i, k + 1);
        if i < c < lists.len() {
            lemma_preorder_in_range(lists, c);
            let first = preorder(lists, c);
            assert forall|j: int|
                0 <= j < preorder_children(lists, i, k).len() implies i < #[trigger] preorder_children(
                lists,
                i,
                k,
            )[j] < lists.len() by {
                if j < first.len() {
                    assert(preorder_children(lists, i, k)[j] == first[j]);
                } else {
                    assert(preorder_children(lists, i, k)[j] == rest[j - first.len()]);
                }
            }
        }
    }
}

/// The pre-order of the subtrees of the first `k` children of `i`.
pub open spec fn preorder_before(lists: Seq<Seq<int>>, i: int, k: int) -> Seq<int>
    decreases k,
{
    if k <= 0 {
        Seq::empty()
    } else {
        preorder_before(lists, i, k - 1) + preorder(lists, lists[i][k - 1])
    }
}

/// The subtrees of the children of a node, split at the `k`-th child.
pub proof fn lemma_preorder_split(lists: Seq<Seq<int>>, i: int, k: int)
    requires
        0 <= i < lists.len(),
        0 <= k <= lists[i].len(),
        forall|j: int| 0 <= j < lists[i].len() ==> i < #[trigger] lists[i][j] < lists.len(),
    ensures
        preorder_children(lists, i, 0) == preorder_before(lists, i, k) + preorder_children(
            lists,
            i,
            k,
        ),
    decreases k,
{
    if k == 0 {
        assert(preorder_before(lists, i, 0) + preorder_children(lists, i, 0) =~= preorder_children(
            lists,
            i,
            0,
        ));
    } else {
        lemma_preorder_split(lists, i, k - 1);
        let c = lists[i][k - 1];
        assert(i < c < lists.len());
        assert(preorder_children(lists, i, k - 1) == preorder(lists, c) + preorder_children(
            lists,
            i,
            k,
        ));
        assert(preorder_before(lists, i, k - 1) + (preorder(lists, c) + preorder_children(
            lists,
            i,
            k,
        )) =~= preorder_before(lists, i, k) + preorder_children(lists, i, k));
    }
}

/// Pre-order looks only at the child lists of the positions it reports:
/// two stores that agree on them have the same pre-order.
pub proof fn lemma_preorder_agrees(a: Seq<Seq<int>>, b: Seq<Seq<int>>, i: int)
    requires
        0 <= i < a.len() <= b.len(),
        forall|k: int|
            0 <= k < preorder(a, i).len() ==> b[#[trigger] preorder(a, i)[k]] == a[preorder(
                a,
                i,
            )[k]],
        forall|z: int, j: int|
            0 <= z < a.len() && 0 <= j < a[z].len() ==> z < #[trigger] a[z][j] < a.len(),
    ensures
        preorder(b, i) == preorder(a, i),
    decreases a.len() - i, 1int, 0int,
{
    assert(preorder(a, i)[0] == i);
    assert(b[i] == a[i]);
    let rest = preorder_children(a, i, 0);
    assert forall|k: int| 0 <= k < rest.len() implies b[#[trigger] rest[k]] == a[rest[k]] by {
        assert(preorder(a, i)[k + 1] == rest[k]);
    }
    lemma_preorder_children_agree(a, b, i, 0);
}

/// Pre-order of a child range looks only at the child lists of the
/// positions it reports, and at that of the parent.
pub proof fn lemma_preorder_children_agree(a: Seq<Seq<int>>, b: Seq<Seq<int>>, i: int, k: int)
    requires
        a.len() <= b.len(),
        0 <= i < a.len(),
        b[i] == a[i],
        forall|j: int|
            0 <= j < preorder_children(a, i, k).len() ==> b[#[trigger] preorder_children(a, i, k)[j]]
                == a[preorder_children(a, i, k)[j]],
        forall|z: int, j: int|
            0 <= z < a.len() && 0 <= j < a[z].len() ==> z < #[trigger] a[z][j] < a.len(),
    ensures
        preorder_children(b, i, k) == preorder_children(a, i, k),
    decreases a.len() - i, 0int, a[i].len() - k,
{
    if 0 <= k < a[i].len() {
        let c = a[i][k];
        assert(i < c < a.len());
        let first = preorder(a, c);
        let rest = preorder_children(a, i, k + 1);
        assert(preorder_children(a, i, k) == first + rest);
        assert forall|j: int| 0 <= j < first.len() implies b[#[trigger] first[j]] == a[first[j]] by {
            assert(preorder_children(a, i, k)[j] == first[j]);
        }
        assert forall|j: int| 0 <= j < rest.len() implies b[#[trigger] rest[j]] == a[rest[j]] by {
            assert(preorder_children(a, i, k)[j + first.len()] == rest[j]);
        }
        lemma_preorder_agrees(a, b, c);
        lemma_preorder_children_agree(a, b, i, k + 1);
    }
}

/// The subtrees of the first `k` children of a node are the same in two
/// stores that agree on the child lists of the positions in them.
pub proof fn lemma_preorder_before_agrees(a: Seq<Seq<int>>, b: Seq<Seq<int>>, i: int, k: int)
    requires
        0 <= i < a.len() <= b.len(),
        0 <= k <= a[i].len(),
        k <= b[i].len(),
        forall|j: int| 0 <= j < k ==> #[trigger] b[i][j] == a[i][j],
        forall|t: int|
            0 <= t < preorder_before(a, i, k).len() ==> b[#[trigger] preorder_before(a, i, k)[t]]
                == a[preorder_before(a, i, k)[t]],
        forall|z: int, j: int|
            0 <= z < a.len() && 0 <= j < a[z].len() ==> z < #[trigger] a[z][j] < a.len(),
    ensures
        preorder_before(b, i, k) == preorder_before(a, i, k),
    decreases k,
{
    if k > 0 {
        let c = a[i][k - 1];
        assert(b[i][k - 1] == c);
        assert(i < c < a.len());
        let front = preorder_before(a, i, k - 1);
        let last = preorder(a, c);
        assert(preorder_before(a, i, k) == front + last);
        assert forall|t: int| 0 <= t < front.len() implies b[#[trigger] front[t]] == a[front[t]] by {
            assert(preorder_before(a, i, k)[t] == front[t]);
        }
        assert forall|t: int| 0 <= t < last.len() implies b[#[trigger] last[t]] == a[last[t]] by {
            assert(preorder_before(a, i, k)[t + front.len()] == last[t]);
        }
        lemma_preorder_before_agrees(a, b, i, k - 1);
        lemma_preorder_agrees(a, b, c);
    }
}

/// The positions in `ids` as integers.
pub open spec fn ids_view(ids: Seq<usize>) -> Seq<int> {
    ids.map_values(|id: usize| id as int)
}

/// The child list of every node of a store.
pub open spec fn child_lists<T>(nodes: Seq<TreeNode<T>>) -> Seq<Seq<int>> {
    Seq::new(nodes.len(), |i: int| ids_view(nodes[i].children@))
}

/// A node over plain values: what the value holds, and the links as
/// integers.
pub struct NodeModel<V> {
    pub value: V,
    pub parent: Option<int>,
    pub children: Seq<int>,
}

/// What one stored node holds.
pub open spec fn node_model<T: View>(node: TreeNode<T>) -> NodeModel<T::V> {
    NodeModel {
        value: node.value@,
        parent: match node.parent {
            Some(p) => Some(p as int),
            None => None,
        },
        children: ids_view(node.children@),
    }
}

/// What a store holds, node by node.
pub open spec fn tree_model<T: View>(nodes: Seq<TreeNode<T>>) -> Seq<NodeModel<T::V>> {
    Seq::new(nodes.len(), |i: int| node_model(nodes[i]))
}

/// The child list of every node of a model.
pub open spec fn model_child_lists<V>(model: Seq<NodeModel<V>>) -> Seq<Seq<int>> {
    Seq::new(model.len(), |i: int| model[i].children)
}

/// A store and its model have the same child lists.
pub proof fn lemma_model_child_lists<T: View>(nodes: Seq<TreeNode<T>>)
    ensures
        model_child_lists(tree_model(nodes)) == child_lists(nodes),
{
    assert(model_child_lists(tree_model(nodes)) =~= child_lists(nodes));
}

/// The entries of `order` whose flag in `keep` is set, in their order.
pub open spec fn kept(order: Seq<int>, keep: Seq<bool>) -> Seq<int>
    decreases order.len(),
{
    if order.len() == 0 || keep.len() != order.len() {
        Seq::empty()
    } else if keep.last() {
        kept(order.drop_last(), keep.drop_last()).push(order.last())
    } else {
        kept(order.drop_last(), keep.drop_last())
    }
}

/// The nodes of `after` below the length of `before` are those of
/// `before`, but that `parent`, where there is one, has the position after
/// them as one more child.
pub open spec fn kept_below<B>(
    before: Seq<TreeNode<B>>,
    after: Seq<TreeNode<B>>,
    parent: Option<usize>,
) -> bool {
    forall|q: int|
        0 <= q < before.len() ==> {
            &&& (#[trigger] after[q]).value == before[q].value
            &&& after[q].parent == before[q].parent
            &&& after[q].children@ == (if parent == Some(q as usize) {
                before[q].children@.push(before.len() as usize)
            } else {
                before[q].children@
            })
        }
}

/// The nodes of `out` from position `first` on are copies of the nodes of
/// `from` at the positions of `source`, in that order: a copy holds what
/// `cb` makes of its node, and its children are the copies of the node's
/// children, in their order.
pub open spec fn copies<T, B, F: Fn(&TreeNode<T>) -> B>(
    from: Seq<TreeNode<T>>,
    source: Seq<int>,
    cb: F,
    out: Seq<TreeNode<B>>,
    first: int,
) -> bool {
    &&& forall|q: int|
        first <= q < first + source.len() ==> {
            &&& cb.ensures((&from[source[q - first]],), (#[trigger] out[q]).value)
            &&& out[q].children@.len() == from[source[q - first]].children@.len()
        }
    &&& forall|q: int, j: int|
        first <= q < first + source.len() && 0 <= j < out[q].children@.len() ==> {
            let c = #[trigger] out[q].children@[j];
            &&& first <= c < first + source.len()
            &&& source[c - first] == from[source[q - first]].children@[j]
        }
}

/// What copying the subtree under `id` of `from` into a store does: the
/// store `before` grows into `after` by a copy of each node of the subtree,
/// in pre-order. The copy of `id` names `parent` as its parent and, where
/// there is such a parent, has become its newest child. Nothing else
/// changes.
pub open spec fn grafted<T, B, F: Fn(&TreeNode<T>) -> B>(
    from: Seq<TreeNode<T>>,
    id: int,
    cb: F,
    before: Seq<TreeNode<B>>,
    after: Seq<TreeNode<B>>,
    parent: Option<usize>,
) -> bool {
    let sub = preorder(child_lists(from), id);
    &&& after.len() == before.len() + sub.len()
    &&& kept_below(before, after, parent)
    &&& after[before.len() as int].parent == parent
    &&& copies(from, sub, cb, after, before.len() as int)
}

/// The state of a copy of the subtree under `id` when the subtrees of the
/// first `j` children have been copied.
spec fn partly_grafted<T, B, F: Fn(&TreeNode<T>) -> B>(
    from: Seq<TreeNode<T>>,
    id: int,
    cb: F,
    before: Seq<TreeNode<B>>,
    out: Seq<TreeNode<B>>,
    parent: Option<usize>,
    j: int,
) -> bool {
    let lists = child_lists(from);
    let done = preorder_before(lists, id, j);
    let base = before.len() as int;
    &&& out.len() == base + 1 + done.len()
    &&& kept_below(before, out, parent)
    &&& out[base].parent == parent
    &&& cb.ensures((&from[id],), out[base].value)
    &&& out[base].children@.len() == j
    &&& forall|l: int|
        0 <= l < j ==> {
            let at = preorder_before(lists, id, l).len() as int;
            &&& (#[trigger] out[base].children@[l]) == base + 1 + at
            &&& at < done.len()
            &&& done[at] == lists[id][l]
        }
    &&& copies(from, done, cb, out, base + 1)
}

/// Every child stands after its parent and in the store.
spec fn lists_follow(lists: Seq<Seq<int>>) -> bool {
    forall|z: int, l: int|
        0 <= z < lists.len() && 0 <= l < lists[z].len() ==> z < #[trigger] lists[z][l]
            < lists.len()
}

/// The child lists of a store that keeps the shape rule follow.
proof fn lemma_forest_lists<T>(nodes: Seq<TreeNode<T>>)
    requires
        forest(nodes),
    ensures
        lists_follow(child_lists(nodes)),
{
    let lists = child_lists(nodes);
    assert forall|z: int, l: int| 0 <= z < lists.len() && 0 <= l < lists[z].len() implies z
        < #[trigger] lists[z][l] < lists.len() by {
        let c = nodes[z].children@[l];
        assert(lists[z][l] == c as int);
    }
}

/// Copying the subtree of one more child extends a partial copy.
proof fn lemma_graft_child<T, B, F: Fn(&TreeNode<T>) -> B>(
    from: Seq<TreeNode<T>>,
    id: int,
    cb: F,
    before: Seq<TreeNode<B>>,
    held: Seq<TreeNode<B>>,
    out: Seq<TreeNode<B>>,
    parent: Option<usize>,
    j: int,
)
    requires
        0 <= id < from.len(),
        0 <= j < from[id].children@.len(),
        lists_follow(child_lists(from)),
        partly_grafted(from, id, cb, before, held, parent, j),
        grafted(
            from,
            from[id].children@[j] as int,
            cb,
            held,
            out,
            Some(before.len() as usize),
        ),
        out.len() <= usize::MAX,
    ensures
        partly_grafted(from, id, cb, before, out, parent, j + 1),
{
    let lists = child_lists(from);
    let base = before.len() as int;
    let child = from[id].children@[j] as int;
    let done = preorder_before(lists, id, j);
    let more = preorder(lists, child);
    let next = preorder_before(lists, id, j + 1);
    let at = held.len() as int;
    assert(lists[id][j] == child);
    assert(id < child < from.len());
    assert(next == done + more);
    assert(more[0] == child);
    assert(out[base].children@ == held[base].children@.push(at as usize));
    assert forall|q: int| 0 <= q < before.len() implies {
        &&& (#[trigger] out[q]).value == before[q].value
        &&& out[q].parent == before[q].parent
        &&& out[q].children@ == (if parent == Some(q as usize) {
            before[q].children@.push(before.len() as usize)
        } else {
            before[q].children@
        })
    } by {
        assert(held[q].value == before[q].value);
        assert(out[q].children@ == held[q].children@);
    }
    assert forall|l: int| 0 <= l < j + 1 implies {
        let before_l = preorder_before(lists, id, l).len() as int;
        &&& (#[trigger] out[base].children@[l]) == base + 1 + before_l
        &&& before_l < next.len()
        &&& next[before_l] == lists[id][l]
    } by {
        let before_l = preorder_before(lists, id, l).len() as int;
        if l < j {
            assert(out[base].children@[l] == held[base].children@[l]);
            assert(next[before_l] == done[before_l]);
        } else {
            assert(next[done.len() as int] == more[0]);
        }
    }
    assert forall|q: int| base + 1 <= q < base + 1 + next.len() implies {
        &&& cb.ensures((&from[next[q - (base + 1)]],), (#[trigger] out[q]).value)
        &&& out[q].children@.len() == from[next[q - (base + 1)]].children@.len()
    } by {
        if q < at {
            assert(next[q - (base + 1)] == done[q - (base + 1)]);
            assert(out[q].value == held[q].value);
            assert(out[q].children@ == held[q].children@);
        } else {
            assert(next[q - (base + 1)] == more[q - at]);
        }
    }
    assert forall|q: int, l: int|
        base + 1 <= q < base + 1 + next.len() && 0 <= l < out[q].children@.len() implies {
        let c = #[trigger] out[q].children@[l];
        &&& base + 1 <= c < base + 1 + next.len()
        &&& next[c - (base + 1)] == from[next[q - (base + 1)]].children@[l]
    } by {
        if q < at {
            assert(next[q - (base + 1)] == done[q - (base + 1)]);
            assert(out[q].children@ == held[q].children@);
            let c = held[q].children@[l];
            assert(next[c - (base + 1)] == done[c - (base + 1)]);
        } else {
            assert(next[q - (base + 1)] == more[q - at]);
            let c = out[q].children@[l];
            assert(at <= c < at + more.len());
            assert(next[c - (base + 1)] == more[c - at]);
        }
    }
}

/// A partial copy in which the subtrees of all children have been copied
/// is a copy of the subtree.
proof fn lemma_graft_done<T, B, F: Fn(&TreeNode<T>) -> B>(
    from: Seq<TreeNode<T>>,
    id: int,
    cb: F,
    before: Seq<TreeNode<B>>,
    out: Seq<TreeNode<B>>,
    parent: Option<usize>,
)
    requires
        0 <= id < from.len(),
        lists_follow(child_lists(from)),
        partly_grafted(from, id, cb, before, out, parent, from[id].children@.len() as int),
    ensures
        grafted(from, id, cb, before, out, parent),
{
    let lists = child_lists(from);
    let base = before.len() as int;
    let r = from[id].children@.len() as int;
    let done = preorder_before(lists, id, r);
    let sub = preorder(lists, id);
    assert(lists[id].len() == r);
    lemma_preorder_split(lists, id, r);
    assert(preorder_children(lists, id, r) =~= Seq::<int>::empty());
    assert(sub =~= seq![id] + done);
    assert forall|q: int| base <= q < base + sub.len() implies {
        &&& cb.ensures((&from[sub[q - base]],), (#[trigger] out[q]).value)
        &&& out[q].children@.len() == from[sub[q - base]].children@.len()
    } by {
        if q > base {
            assert(sub[q - base] == done[q - (base + 1)]);
        }
    }
    assert forall|q: int, l: int|
        base <= q < base + sub.len() && 0 <= l < out[q].children@.len() implies {
        let c = #[trigger] out[q].children@[l];
        &&& base <= c < base + sub.len()
        &&& sub[c - base] == from[sub[q - base]].children@[l]
    } by {
        if q > base {
            assert(sub[q - base] == done[q - (base + 1)]);
            let c = out[q].children@[l];
            assert(base + 1 <= c < base + 1 + done.len());
            assert(sub[c - base] == done[c - (base + 1)]);
        } else {
            let at = preorder_before(lists, id, l).len() as int;
            assert(out[base].children@[l] == base + 1 + at);
            assert(sub[1 + at] == done[at]);
            assert(lists[id][l] == from[id].children@[l] as int);
        }
    }
}

/// The owning store of a tree's nodes. A node without a parent is a root.
#[derive(Debug)]
pub struct Tree<T> {
    nodes: Vec<TreeNode<T>>,
}

impl<T> View for Tree<T> {
    type V = Seq<TreeNode<T>>;

    closed spec fn view(&self) -> Seq<TreeNode<T>> {
        self.nodes@
    }
}

impl<T> Tree<T> {
    /// The shape rule holds of every store.
    #[verifier::type_invariant]
    pub closed spec fn wf(&self) -> bool {
        forest(self.nodes@)
    }

    /// What `wf` says, in terms of the view.
    pub proof fn lemma_wf(&self)
        requires
            self.wf(),
        ensures
            forest(self@),
    {
    }

    /// An empty store.
    pub fn new() -> (tree: Tree<T>)
        ensures
            tree@ == Seq::<TreeNode<T>>::empty(),
            tree.wf(),
    {
        Tree { nodes: Vec::new() }
    }

    /// The number of nodes.
    pub fn len(&self) -> (n: usize)
        ensures
            n == self@.len(),
            self.wf(),
    {
        proof {
            use_type_invariant(self);
        }
        self.nodes.len()
    }

    /// The node at position `id`.
    pub fn get(&self, id: usize) -> (node: &TreeNode<T>)
        requires
            id < self@.len(),
        ensures
            *node == self@[id as int],
            self.wf(),
    {
        proof {
            use_type_invariant(self);
        }
        &self.nodes[id]
    }

    /// Stores a detached node and returns its position. The node is not yet
    /// a child of anything: `add_child` attaches it.
    pub fn insert(&mut self, node: TreeNode<T>) -> (id: usize)
        requires
            node.children@.len() == 0,
            node.parent matches Some(p) ==> p < old(self)@.len(),
        ensures
            id == old(self)@.len(),
            final(self)@ == old(self)@.push(node),
            final(self).wf(),
    {
        proof {
            use_type_invariant(&*self);
        }
        let mut nodes: Vec<TreeNode<T>> = Vec::new();
        core::mem::swap(&mut self.nodes, &mut nodes);
        let id = nodes.len();
        nodes.push(node);
        self.nodes = nodes;
        id
    }

    /// Appends the stored node `child` to the child list of `parent`.
    pub fn add_child(&mut self, parent: usize, child: usize)
        requires
            parent < child < old(self)@.len(),
            old(self)@[child as int].parent == Some(parent),
            !old(self)@[parent as int].children@.contains(child),
        ensures
            final(self)@.len() == old(self)@.len(),
            forall|i: int|
                0 <= i < old(self)@.len() && i != parent ==> final(self)@[i] == old(self)@[i],
            final(self)@[parent as int].value == old(self)@[parent as int].value,
            final(self)@[parent as int].parent == old(self)@[parent as int].parent,
            final(self)@[parent as int].children@ == old(self)@[parent as int].children@.push(
                child,
            ),
            final(self).wf(),
    {
        proof {
            use_type_invariant(&*self);
        }
        let mut nodes: Vec<TreeNode<T>> = Vec::new();
        core::mem::swap(&mut self.nodes, &mut nodes);
        let ghost before = nodes@;
        nodes[parent].add_child(child);
        proof {
            let after = nodes@;
            assert forall|i: int, k: int|
                0 <= i < after.len() && 0 <= k < after[i].children@.len() implies {
                let c = #[trigger] after[i].children@[k];
                i < c < after.len() && after[c as int].parent == Some(i as usize)
            } by {
                if i == parent && k < before[i].children@.len() {
                    let c = before[i].children@[k];
                }
            }
            assert forall|i: int, k: int, l: int|
                0 <= i < after.len() && 0 <= k < l < after[i].children@.len() implies #[trigger] after[i].children@[k]
                != #[trigger] after[i].children@[l] by {
                if i == parent {
                    if l == before[i].children@.len() {
                        assert(before[i].children@[k] != child);
                    } else {
                        assert(before[i].children@[k] != before[i].children@[l]);
                    }
                } else {
                    assert(before[i].children@[k] != before[i].children@[l]);
                }
            }
        }
        self.nodes = nodes;
    }

    /// Puts `value` in place of the value of node `id` and returns the old
    /// one; the links stay as they are.
    pub fn replace_value(&mut self, id: usize, value: T) -> (previous: T)
        requires
            id < old(self)@.len(),
        ensures
            previous == old(self)@[id as int].value,
            final(self)@.len() == old(self)@.len(),
            forall|i: int|
                0 <= i < old(self)@.len() && i != id ==> final(self)@[i] == old(self)@[i],
            final(self)@[id as int].value == value,
            final(self)@[id as int].parent == old(self)@[id as int].parent,
            final(self)@[id as int].children == old(self)@[id as int].children,
            final(self).wf(),
    {
        proof {
            use_type_invariant(&*self);
        }
        let mut nodes: Vec<TreeNode<T>> = Vec::new();
        core::mem::swap(&mut self.nodes, &mut nodes);
        let mut held = value;
        core::mem::swap(&mut nodes[id].value, &mut held);
        self.nodes = nodes;
        held
    }

    /// The positions of the subtree under `start`, in pre-order.
    pub fn preorder_ids(&self, start: usize) -> (order: Vec<usize>)
        requires
            start < self@.len(),
        ensures
            ids_view(order@) == preorder(child_lists(self@), start as int),
            forall|k: int| 0 <= k < order@.len() ==> #[trigger] order@[k] < self@.len(),
    {
        let mut order: Vec<usize> = Vec::new();
        self.collect_preorder(start, &mut order);
        proof {
            assert(ids_view(order@) =~= preorder(child_lists(self@), start as int));
            lemma_preorder_in_range(child_lists(self@), start as int);
            assert forall|k: int| 0 <= k < order@.len() implies #[trigger] order@[k] < self@.len() by {
                assert(ids_view(order@)[k] == order@[k] as int);
            }
        }
        order
    }

    fn collect_preorder(&self, id: usize, out: &mut Vec<usize>)
        requires
            id < self@.len(),
        ensures
            ids_view(final(out)@) == ids_view(old(out)@) + preorder(child_lists(self@), id as int),
        decreases self@.len() - id,
    {
        proof {
            use_type_invariant(self);
        }
        out.push(id);
        let node = &self.nodes[id];
        let ghost target = ids_view(old(out)@) + preorder(child_lists(self@), id as int);
        proof {
            assert(ids_view(out@) =~= ids_view(old(out)@) + seq![id as int]);
            assert(ids_view(out@) + preorder_children(child_lists(self@), id as int, 0) =~= target);
        }
        let mut k: usize = 0;
        while k < node.children.len()
            invariant
                k <= node.children@.len(),
                id < self@.len(),
                *node == self@[id as int],
                forest(self@),
                self.wf(),
                ids_view(out@) + preorder_children(child_lists(self@), id as int, k as int) == target,
            decreases node.children@.len() - k,
        {
            let child = node.children[k];
            let ghost before = ids_view(out@);
            proof {
                assert(child == self@[id as int].children@[k as int]);
                assert(id < child < self@.len());
                assert(child_lists(self@)[id as int][k as int] == child as int);
            }
            self.collect_preorder(child, out);
            proof {
                assert(preorder_children(child_lists(self@), id as int, k as int) == preorder(child_lists(self@), child as int)
                    + preorder_children(child_lists(self@), id as int, k + 1));
                assert(ids_view(out@) + preorder_children(child_lists(self@), id as int, k + 1) =~= before
                    + preorder_children(child_lists(self@), id as int, k as int));
            }
            k += 1;
        }
        proof {
            assert(preorder_children(child_lists(self@), id as int, k as int) =~= Seq::<int>::empty());
            assert(ids_view(out@) =~= target);
        }
    }

    /// A store of its own for the subtree under `start`: a copy of each
    /// node of the subtree, in pre-order, holding what `cb` makes of the
    /// node and linked as the nodes of the subtree are. The copy of `start`
    /// stands at position 0 and has no parent.
    pub fn map<B, F: Fn(&TreeNode<T>) -> B>(&self, start: usize, cb: F) -> (mapped: Tree<B>)
        requires
            start < self@.len(),
            forall|i: int| 0 <= i < self@.len() ==> cb.requires((&#[trigger] self@[i],)),
        ensures
            grafted(self@, start as int, cb, Seq::empty(), mapped@, None),
            mapped.wf(),
    {
        let mut mapped: Tree<B> = Tree::new();
        self.map_under(start, &cb, &mut mapped, None);
        proof {
            use_type_invariant(&mapped);
        }
        mapped
    }

    fn map_under<B, F: Fn(&TreeNode<T>) -> B>(
        &self,
        id: usize,
        cb: &F,
        out: &mut Tree<B>,
        parent: Option<usize>,
    )
        requires
            id < self@.len(),
            forall|i: int| 0 <= i < self@.len() ==> cb.requires((&#[trigger] self@[i],)),
            parent matches Some(p) ==> p < old(out)@.len(),
        ensures
            grafted(self@, id as int, *cb, old(out)@, final(out)@, parent),
        decreases self@.len() - id,
    {
        proof {
            use_type_invariant(self);
            use_type_invariant(&*out);
            lemma_forest_lists(self@);
        }
        let ghost begun = out@;
        let node = &self.nodes[id];
        let value = cb(node);
        let copy = out.insert(TreeNode { value, parent, children: Vec::new() });
        match parent {
            Some(p) => {
                proof {
                    assert forall|k: int| 0 <= k < out@[p as int].children@.len() implies out@[p as int].children@[k]
                        != copy by {
                        let c = begun[p as int].children@[k];
                        assert(c < begun.len());
                    }
                }
                out.add_child(p, copy);
            },
            None => {},
        }
        proof {
            assert(preorder_before(child_lists(self@), id as int, 0) =~= Seq::<int>::empty());
        }
        let mut j: usize = 0;
        while j < node.children.len()
            invariant
                j <= node.children@.len(),
                id < self@.len(),
                self.wf(),
                *node == self@[id as int],
                copy == begun.len(),
                lists_follow(child_lists(self@)),
                forall|i: int| 0 <= i < self@.len() ==> cb.requires((&#[trigger] self@[i],)),
                partly_grafted(self@, id as int, *cb, begun, out@, parent, j as int),
            decreases node.children@.len() - j,
        {
            let child = node.children[j];
            let ghost held = out@;
            proof {
                assert(child_lists(self@)[id as int][j as int] == child as int);
            }
            self.map_under(child, cb, out, Some(copy));
            proof {
                assert(out@.len() == out.nodes.len());
                lemma_graft_child(self@, id as int, *cb, begun, held, out@, parent, j as int);
            }
            j += 1;
        }
        proof {
            lemma_graft_done(self@, id as int, *cb, begun, out@, parent);
        }
    }

    /// A store of the same shape whose values are what `cb` makes of the
    /// nodes of this one, position by position.
    pub fn map_values<B, F: Fn(&TreeNode<T>) -> B>(&self, cb: F) -> (mapped: Tree<B>)
        requires
            forall|i: int| 0 <= i < self@.len() ==> cb.requires((&#[trigger] self@[i],)),
        ensures
            mapped@.len() == self@.len(),
            forall|i: int|
                0 <= i < self@.len() ==> {
                    &&& cb.ensures((&self@[i],), (#[trigger] mapped@[i]).value)
                    &&& mapped@[i].parent == self@[i].parent
                    &&& mapped@[i].children@ == self@[i].children@
                },
            mapped.wf(),
    {
        proof {
            use_type_invariant(self);
        }
        let mut nodes: Vec<TreeNode<B>> = Vec::new();
        let mut i: usize = 0;
        while i < self.nodes.len()
            invariant
                i <= self.nodes@.len(),
                nodes@.len() == i,
                forall|j: int| 0 <= j < self@.len() ==> cb.requires((&#[trigger] self@[j],)),
                forall|j: int|
                    0 <= j < i ==> {
                        &&& cb.ensures((&self@[j],), (#[trigger] nodes@[j]).value)
                        &&& nodes@[j].parent == self@[j].parent
                        &&& nodes@[j].children@ == self@[j].children@
                    },
            decreases self.nodes@.len() - i,
        {
            let node = &self.nodes[i];
            let mut children: Vec<usize> = Vec::new();
            let mut k: usize = 0;
            while k < node.children.len()
                invariant
                    k <= node.children@.len(),
                    children@ == node.children@.take(k as int),
                decreases node.children@.len() - k,
            {
                children.push(node.children[k]);
                proof {
                    assert(node.children@.take(k + 1) =~= node.children@.take(k as int).push(
                        node.children@[k as int],
                    ));
                }
                k += 1;
            }
            proof {
                assert(node.children@.take(k as int) =~= node.children@);
            }
            let value = cb(node);
            nodes.push(TreeNode { value, parent: node.parent, children });
            i += 1;
        }
        proof {
            let from = self.nodes@;
            let to = nodes@;
            assert forall|a: int| 0 <= a < to.len() implies ((#[trigger] to[a]).parent matches Some(p)
                ==> p < a) by {
                assert(from[a].parent == to[a].parent);
            }
            assert forall|a: int, k: int| 0 <= a < to.len() && 0 <= k < to[a].children@.len() implies {
                let c = #[trigger] to[a].children@[k];
                a < c < to.len() && to[c as int].parent == Some(a as usize)
            } by {
                let c = from[a].children@[k];
                assert(to[c as int].parent == from[c as int].parent);
            }
            assert forall|a: int, k: int, l: int|
                0 <= a < to.len() && 0 <= k < l < to[a].children@.len() implies #[trigger] to[a].children@[k]
                != #[trigger] to[a].children@[l] by {
                assert(from[a].children@[k] != from[a].children@[l]);
            }
        }
        Tree { nodes }
    }

    /// The positions of the nodes of the subtree under `start` for which
    /// `cb` holds, in pre-order.
    pub fn find<F: Fn(&TreeNode<T>) -> bool>(&self, start: usize, cb: F) -> (matches: Vec<usize>)
        requires
            start < self@.len(),
            forall|i: int| 0 <= i < self@.len() ==> cb.requires((&#[trigger] self@[i],)),
        ensures
            exists|keep: Seq<bool>|
                {
                    &&& keep.len() == preorder(child_lists(self@), start as int).len()
                    &&& forall|k: int|
                        0 <= k < keep.len() ==> cb.ensures(
                            (&self@[preorder(child_lists(self@), start as int)[k]],),
                            #[trigger] keep[k],
                        )
                    &&& ids_view(matches@) == kept(preorder(child_lists(self@), start as int), keep)
                },
            forall|k: int| 0 <= k < matches@.len() ==> #[trigger] matches@[k] < self@.len(),
    {
        let order = self.preorder_ids(start);
        let ghost positions = preorder(child_lists(self@), start as int);
        let mut matches: Vec<usize> = Vec::new();
        let ghost mut keep: Seq<bool> = Seq::empty();
        let mut k: usize = 0;
        proof {
            assert(positions.take(0) =~= Seq::<int>::empty());
            assert(ids_view(matches@) =~= Seq::<int>::empty());
        }
        while k < order.len()
            invariant
                k <= order@.len(),
                positions == ids_view(order@),
                positions == preorder(child_lists(self@), start as int),
                forall|j: int| 0 <= j < order@.len() ==> #[trigger] order@[j] < self@.len(),
                forall|i: int| 0 <= i < self@.len() ==> cb.requires((&#[trigger] self@[i],)),
                keep.len() == k,
                forall|j: int|
                    0 <= j < k ==> cb.ensures((&self@[positions[j]],), #[trigger] keep[j]),
                ids_view(matches@) == kept(positions.take(k as int), keep),
                forall|j: int| 0 <= j < matches@.len() ==> #[trigger] matches@[j] < self@.len(),
            decreases order@.len() - k,
        {
            let id = order[k];
            assert(positions[k as int] == id as int);
            let node = self.get(id);
            let hit = cb(node);
            let ghost before = ids_view(matches@);
            if hit {
                matches.push(id);
            }
            proof {
                let taken = positions.take(k + 1);
                let flags = keep.push(hit);
                assert(taken.drop_last() =~= positions.take(k as int));
                assert(flags.drop_last() =~= keep);
                assert(taken.last() == id as int);
                if hit {
                    assert(ids_view(matches@) =~= before.push(id as int));
                }
                keep = flags;
            }
            k += 1;
        }
        proof {
            assert(positions.take(k as int) =~= positions);
        }
        matches
    }

    /// What `cb` makes of each node of the subtree under `start`, in
    /// pre-order.
    pub fn map_linear<B, F: Fn(&TreeNode<T>) -> B>(&self, start: usize, cb: F) -> (mapped: Vec<B>)
        requires
            start < self@.len(),
            forall|i: int| 0 <= i < self@.len() ==> cb.requires((&#[trigger] self@[i],)),
        ensures
            mapped@.len() == preorder(child_lists(self@), start as int).len(),
            forall|k: int|
                0 <= k < mapped@.len() ==> cb.ensures(
                    (&self@[preorder(child_lists(self@), start as int)[k]],),
                    #[trigger] mapped@[k],
                ),
    {
        let order = self.preorder_ids(start);
        let ghost positions = preorder(child_lists(self@), start as int);
        let mut mapped: Vec<B> = Vec::new();
        let mut k: usize = 0;
        while k < order.len()
            invariant
                k <= order@.len(),
                positions == ids_view(order@),
                forall|j: int| 0 <= j < order@.len() ==> #[trigger] order@[j] < self@.len(),
                forall|i: int| 0 <= i < self@.len() ==> cb.requires((&#[trigger] self@[i],)),
                mapped@.len() == k,
                forall|j: int|
                    0 <= j < k ==> cb.ensures((&self@[positions[j]],), #[trigger] mapped@[j]),
            decreases order@.len() - k,
        {
            let id = order[k];
            assert(positions[k as int] == id as int);
            mapped.push(cb(self.get(id)));
            k += 1;
        }
        mapped
    }

    /// Calls `cb` on each node of the subtree under `start`, in pre-order.
    /// What `cb` promises of a call holds of every node of the subtree.
    pub fn walk<F: Fn(&TreeNode<T>)>(&self, start: usize, cb: F)
        requires
            start < self@.len(),
            forall|i: int| 0 <= i < self@.len() ==> cb.requires((&#[trigger] self@[i],)),
        ensures
            forall|k: int|
                0 <= k < preorder(child_lists(self@), start as int).len() ==> cb.ensures(
                    (&self@[#[trigger] preorder(child_lists(self@), start as int)[k]],),
                    (),
                ),
    {
        let order = self.preorder_ids(start);
        let ghost positions = preorder(child_lists(self@), start as int);
        let mut k: usize = 0;
        while k < order.len()
            invariant
                k <= order@.len(),
                positions == ids_view(order@),
                forall|j: int| 0 <= j < order@.len() ==> #[trigger] order@[j] < self@.len(),
                forall|i: int| 0 <= i < self@.len() ==> cb.requires((&#[trigger] self@[i],)),
                forall|j: int| 0 <= j < k ==> cb.ensures((&self@[#[trigger] positions[j]],), ()),
            decreases order@.len() - k,
        {
            let id = order[k];
            assert(positions[k as int] == id as int);
            cb(self.get(id));
            k += 1;
        }
    }
}

} // verus!
