//! The model tree: a `slab_tree::Tree` of groups, held by `ModelTree`, which only the
//! functions of this module build and grow. Its contents are described by the nodes
//! in pre-order (each node before its children, children in order), each with its
//! depth (the root at 0) and its data, and by the ids of those nodes in the same order.
use vstd::prelude::*;

use slab_tree::{NodeId, Tree};

use crate::names::{Group, GroupView};

verus! {

#[verifier::external_type_specification]
#[verifier::external_body]
#[verifier::reject_recursive_types(T)]
pub struct ExTree<T>(slab_tree::Tree<T>);

#[verifier::external_type_specification]
#[verifier::external_body]
pub struct ExNodeId(slab_tree::NodeId);

/// A model tree. Its field is private: every value is made by `ModelTree::with_root`
/// and grown by the readers, through `Tree::new`, `Tree::set_root` on a tree without
/// nodes and `NodeMut::append` alone.
#[derive(Debug)]
pub struct ModelTree {
    tree: Tree<Group>,
}

/// The nodes that hang from the root of `t`, in pre-order, each with its depth and
/// its data.
pub uninterp spec fn tree_nodes(t: ModelTree) -> Seq<(nat, GroupView)>;

/// The ids of the nodes of `tree_nodes(t)`, position by position.
pub uninterp spec fn tree_ids(t: ModelTree) -> Seq<NodeId>;

/// The first position at or after `j` whose node is at depth `d` or less (the length
/// if there is none).
pub open spec fn first_at_most(nodes: Seq<(nat, GroupView)>, j: int, d: nat) -> int
    decreases nodes.len() - j,
{
    if j < 0 || j >= nodes.len() {
        nodes.len() as int
    } else if nodes[j].0 <= d {
        j
    } else {
        first_at_most(nodes, j + 1, d)
    }
}

/// The position just after the last descendant of the node at `i`: where a new last
/// child of that node goes.
pub open spec fn subtree_end(nodes: Seq<(nat, GroupView)>, i: int) -> int {
    first_at_most(nodes, i + 1, nodes[i].0)
}

/// The last position before `i` whose node is at depth `d` (-1 if there is none). For
/// `d` one less than the depth of the node at `i`, that is the node's parent.
pub open spec fn last_at_depth(nodes: Seq<(nat, GroupView)>, i: int, d: nat) -> int
    decreases i,
{
    if i <= 0 {
        -1
    } else if nodes[i - 1].0 == d {
        i - 1
    } else {
        last_at_depth(nodes, i - 1, d)
    }
}

/// The depth of the node at `j` is at least 1 and at most one more than that of the
/// node before it.
pub open spec fn depth_step(nodes: Seq<(nat, GroupView)>, j: int) -> bool {
    1 <= nodes[j].0 <= nodes[j - 1].0 + 1
}

/// The depths of a pre-order walk of a tree: the root at 0, every later node one level
/// below some earlier node.
pub open spec fn depths_wf(nodes: Seq<(nat, GroupView)>) -> bool {
    &&& nodes.len() > 0 ==> nodes[0].0 == 0
    &&& forall|j: int| 1 <= j < nodes.len() ==> #[trigger] depth_step(nodes, j)
}

/// What holds of every tree: the depths form a pre-order walk, and each node has one
/// id of its own.
pub open spec fn tree_ok(t: ModelTree) -> bool {
    &&& depths_wf(tree_nodes(t))
    &&& tree_ids(t).len() == tree_nodes(t).len()
    &&& tree_ids(t).no_duplicates()
}

/// The position of the node with id `id` in `t`.
pub open spec fn pos_of(t: ModelTree, id: NodeId) -> int {
    tree_ids(t).index_of(id)
}

/// Calls `Tree::new`, which makes a tree without nodes.
#[verifier::external_body]
fn tree_new() -> (t: ModelTree)
    ensures
        tree_nodes(t) == Seq::<(nat, GroupView)>::empty(),
        tree_ids(t) == Seq::<NodeId>::empty(),
{
    ModelTree { tree: Tree::new() }
}

/// Calls `Tree::set_root` on a tree without nodes, which puts a new node holding
/// `root` at the root and returns its id, an id that no node of the tree had. (On a
/// tree that already has a root, slab_tree makes the former root the new root's first
/// child without recording it as its last child; that case is left out.)
#[verifier::external_body]
fn tree_set_root(t: &mut ModelTree, root: Group) -> (id: NodeId)
    requires
        tree_nodes(*old(t)).len() == 0,
    ensures
        tree_nodes(*final(t)) == seq![(0nat, root@)],
        tree_ids(*final(t)) == seq![id] + tree_ids(*old(t)),
        !tree_ids(*old(t)).contains(id),
{
    t.tree.set_root(root)
}

/// Calls `Tree::get_mut` for the node `parent` and `NodeMut::append` on it, which adds
/// a node holding `data` after the parent's recorded last child, and returns the new
/// node's id, an id that no node of the tree had. That recorded last child is the last
/// of the children as they are walked, as in every tree made by `Tree::new`, `set_root`
/// on a tree without nodes and `append`, the only calls that make a `ModelTree`.
#[verifier::external_body]
pub(crate) fn tree_append(t: &mut ModelTree, parent: NodeId, data: Group) -> (id: NodeId)
    requires
        tree_ids(*old(t)).contains(parent),
        tree_ids(*old(t)).len() == tree_nodes(*old(t)).len(),
        tree_ids(*old(t)).no_duplicates(),
    ensures
        tree_nodes(*final(t)) == tree_nodes(*old(t)).insert(
            subtree_end(tree_nodes(*old(t)), pos_of(*old(t), parent)),
            (
                (tree_nodes(*old(t))[pos_of(*old(t), parent)].0 + 1) as nat,
                data@,
            ),
        ),
        tree_ids(*final(t)) == tree_ids(*old(t)).insert(
            subtree_end(tree_nodes(*old(t)), pos_of(*old(t), parent)),
            id,
        ),
        !tree_ids(*old(t)).contains(id),
{
    t.tree.get_mut(parent).unwrap().append(data).node_id()
}

/// Calls `Tree::get` for the node `id` and `NodeRef::parent` on it: the id of the
/// node's parent, or `None` at the root.
#[verifier::external_body]
pub(crate) fn tree_parent(t: &ModelTree, id: NodeId) -> (r: Option<NodeId>)
    requires
        tree_ids(*t).contains(id),
        tree_ids(*t).len() == tree_nodes(*t).len(),
        tree_ids(*t).no_duplicates(),
    ensures
        r == (if tree_nodes(*t)[pos_of(*t, id)].0 == 0 {
            None::<NodeId>
        } else {
            Some(
                tree_ids(*t)[last_at_depth(
                    tree_nodes(*t),
                    pos_of(*t, id),
                    (tree_nodes(*t)[pos_of(*t, id)].0 - 1) as nat,
                )],
            )
        }),
{
    match t.tree.get(id).unwrap().parent() {
        Some(p) => Some(p.node_id()),
        None => None,
    }
}

impl ModelTree {
    /// A tree whose only node, the root, holds `root`; and the root's id.
    pub fn with_root(root: Group) -> (r: (ModelTree, NodeId))
        ensures
            tree_ok(r.0),
            tree_nodes(r.0) == seq![(0nat, root@)],
            tree_ids(r.0) == seq![r.1],
            pos_of(r.0, r.1) == 0,
    {
        let mut t = tree_new();
        let id = tree_set_root(&mut t, root);
        proof {
            assert(tree_ids(t) =~= seq![id]);
            assert(tree_ids(t)[0] == id);
        }
        (t, id)
    }

    /// The slab tree itself, to walk or print.
    pub fn tree(&self) -> &Tree<Group> {
        &self.tree
    }
}

/// Every node of `a` is still in `b`, under the same id, with the same depth and data.
pub open spec fn keeps_nodes(a: ModelTree, b: ModelTree) -> bool {
    forall|id: NodeId|
        #[trigger] tree_ids(a).contains(id) ==> {
            &&& tree_ids(b).contains(id)
            &&& tree_nodes(b)[pos_of(b, id)] == tree_nodes(a)[pos_of(a, id)]
        }
}

/// Keeping the nodes is transitive.
pub proof fn lemma_keeps_trans(a: ModelTree, b: ModelTree, c: ModelTree)
    requires
        keeps_nodes(a, b),
        keeps_nodes(b, c),
    ensures
        keeps_nodes(a, c),
{
    assert forall|id: NodeId| #[trigger] tree_ids(a).contains(id) implies {
        &&& tree_ids(c).contains(id)
        &&& tree_nodes(c)[pos_of(c, id)] == tree_nodes(a)[pos_of(a, id)]
    } by {
        assert(tree_ids(b).contains(id));
    }
}

/// Adding a node keeps every node that was there.
pub proof fn lemma_append_keeps(old_t: ModelTree, new_t: ModelTree, cur: NodeId, id: NodeId, g: GroupView)
    requires
        tree_ok(old_t),
        tree_ok(new_t),
        tree_ids(old_t).contains(cur),
        tree_nodes(new_t) == with_child(tree_nodes(old_t), pos_of(old_t, cur), g),
        tree_ids(new_t) == tree_ids(old_t).insert(subtree_end(tree_nodes(old_t), pos_of(old_t, cur)), id),
    ensures
        keeps_nodes(old_t, new_t),
{
    let ids = tree_ids(old_t);
    let nodes = tree_nodes(old_t);
    let ci = ids.index_of(cur);
    assert(0 <= ci < ids.len() && ids[ci] == cur);
    lemma_append_wf(nodes, ci, g);
    let e = subtree_end(nodes, ci);
    let x = ((nodes[ci].0 + 1) as nat, g);
    ids.insert_ensures(e, id);
    nodes.insert_ensures(e, x);
    assert forall|y: NodeId| #[trigger] ids.contains(y) implies {
        &&& tree_ids(new_t).contains(y)
        &&& tree_nodes(new_t)[pos_of(new_t, y)] == nodes[pos_of(old_t, y)]
    } by {
        let p = ids.index_of(y);
        assert(0 <= p < ids.len() && ids[p] == y);
        let q = if p < e { p } else { p + 1 };
        let n = tree_ids(new_t);
        assert(n[q] == y);
        assert(n.contains(y));
        let q2 = n.index_of(y);
        assert(0 <= q2 < n.len() && n[q2] == y);
        assert(q2 == q);
    }
}

/// The position found by `first_at_most` lies between `j` and the end; every node
/// before it is deeper than `d`, and the node at it (if any) is not.
pub proof fn lemma_first_at_most(nodes: Seq<(nat, GroupView)>, j: int, d: nat)
    requires
        0 <= j <= nodes.len(),
    ensures
        j <= first_at_most(nodes, j, d) <= nodes.len(),
        forall|k: int| j <= k < first_at_most(nodes, j, d) ==> nodes[k].0 > d,
        first_at_most(nodes, j, d) < nodes.len() ==> nodes[first_at_most(nodes, j, d)].0 <= d,
    decreases nodes.len() - j,
{
    if j < nodes.len() && nodes[j].0 > d {
        lemma_first_at_most(nodes, j + 1, d);
    }
}

/// The position found by `last_at_depth` lies before `i`, holds depth `d`, and no node
/// between it and `i` has depth `d`.
pub proof fn lemma_last_at_depth(nodes: Seq<(nat, GroupView)>, i: int, d: nat)
    requires
        0 <= i <= nodes.len(),
    ensures
        -1 <= last_at_depth(nodes, i, d) < i,
        last_at_depth(nodes, i, d) >= 0 ==> nodes[last_at_depth(nodes, i, d)].0 == d,
        forall|k: int| last_at_depth(nodes, i, d) < k < i && 0 <= k ==> nodes[k].0 != d,
    decreases i,
{
    if i > 0 && nodes[i - 1].0 != d {
        lemma_last_at_depth(nodes, i - 1, d);
    }
}

/// `last_at_depth` only looks at the positions before `i`.
pub proof fn lemma_last_at_depth_prefix(a: Seq<(nat, GroupView)>, b: Seq<(nat, GroupView)>, i: int, d: nat)
    requires
        0 <= i <= a.len(),
        i <= b.len(),
        forall|k: int| 0 <= k < i ==> a[k] == b[k],
    ensures
        last_at_depth(a, i, d) == last_at_depth(b, i, d),
    decreases i,
{
    if i > 0 {
        lemma_last_at_depth_prefix(a, b, i - 1, d);
    }
}

/// In a pre-order walk, every node has, for each depth above its own, an earlier node
/// at that depth.
pub proof fn lemma_last_exists(nodes: Seq<(nat, GroupView)>, i: int, d: nat)
    requires
        depths_wf(nodes),
        0 <= i < nodes.len(),
        d < nodes[i].0,
    ensures
        last_at_depth(nodes, i, d) >= 0,
    decreases i,
{
    if i > 0 {
        assert(depth_step(nodes, i));
        if nodes[i - 1].0 != d {
            lemma_last_exists(nodes, i - 1, d);
        }
    }
}

/// Adding a last child to a node keeps the depths a pre-order walk.
pub proof fn lemma_append_wf(nodes: Seq<(nat, GroupView)>, i: int, g: GroupView)
    requires
        depths_wf(nodes),
        0 <= i < nodes.len(),
    ensures
        depths_wf(nodes.insert(subtree_end(nodes, i), ((nodes[i].0 + 1) as nat, g))),
        i < subtree_end(nodes, i) <= nodes.len(),
{
    let e = subtree_end(nodes, i);
    let d = nodes[i].0;
    lemma_first_at_most(nodes, i + 1, d);
    let n2 = nodes.insert(e, ((d + 1) as nat, g));
    nodes.insert_ensures(e, ((d + 1) as nat, g));
    assert forall|j: int| 1 <= j < n2.len() implies #[trigger] depth_step(n2, j) by {
        if j < e {
            assert(depth_step(nodes, j));
        } else if j == e {
            if e - 1 > i {
                assert(nodes[e - 1].0 > d);
            }
        } else if j == e + 1 {
            assert(n2[j] == nodes[e]);
            assert(nodes[e].0 <= d);
            assert(depth_step(nodes, e));
        } else {
            assert(n2[j] == nodes[j - 1]);
            assert(n2[j - 1] == nodes[j - 2]);
            assert(depth_step(nodes, j - 1));
        }
    }
}

/// Adding an id that was not there keeps the ids distinct, and moves no id that stands
/// before the place where it goes.
pub proof fn lemma_insert_fresh(ids: Seq<NodeId>, e: int, id: NodeId, cur: NodeId)
    requires
        ids.no_duplicates(),
        !ids.contains(id),
        0 <= e <= ids.len(),
        ids.contains(cur),
        ids.index_of(cur) < e,
    ensures
        ids.insert(e, id).no_duplicates(),
        ids.insert(e, id).index_of(id) == e,
        ids.insert(e, id).index_of(cur) == ids.index_of(cur),
        ids.insert(e, id).contains(id),
        ids.insert(e, id).contains(cur),
{
    let n = ids.insert(e, id);
    ids.insert_ensures(e, id);
    assert forall|a: int, b: int| 0 <= a < n.len() && 0 <= b < n.len() && a != b implies n[a] != n[b] by {
        if a != e && b != e {
            let a0 = if a < e { a } else { a - 1 };
            let b0 = if b < e { b } else { b - 1 };
            assert(n[a] == ids[a0]);
            assert(n[b] == ids[b0]);
        } else if a == e {
            let b0 = if b < e { b } else { b - 1 };
            assert(n[b] == ids[b0]);
        } else {
            let a0 = if a < e { a } else { a - 1 };
            assert(n[a] == ids[a0]);
        }
    }
    assert(n[e] == id);
    let ci = ids.index_of(cur);
    assert(n[ci] == cur);
}

/// What reading a run of blocks into a tree does: the tree's nodes afterwards, and
/// the outcome (the rest of the input and the count of open groups, or the error).
pub struct KindsRun {
    pub nodes: Seq<(nat, GroupView)>,
    pub result: Result<(Seq<u8>, u8), crate::error::RvmError>,
}

/// The nodes after a new last child holding `g` is added to the node at `i`.
pub open spec fn with_child(nodes: Seq<(nat, GroupView)>, i: int, g: GroupView) -> Seq<(nat, GroupView)> {
    nodes.insert(subtree_end(nodes, i), ((nodes[i].0 + 1) as nat, g))
}

/// Where the parent of the node at `i` stands.
pub open spec fn parent_pos(nodes: Seq<(nat, GroupView)>, i: int) -> int {
    last_at_depth(nodes, i, (nodes[i].0 - 1) as nat)
}

/// After `tree_append` at the node `cur`, which is at position `ci`: the tree is still
/// a tree, `cur` is still at `ci`, and the new node is at the end of `cur`'s subtree.
pub proof fn lemma_after_append(old_t: ModelTree, new_t: ModelTree, cur: NodeId, id: NodeId, g: GroupView)
    requires
        tree_ok(old_t),
        tree_ids(old_t).contains(cur),
        tree_nodes(new_t) == with_child(tree_nodes(old_t), pos_of(old_t, cur), g),
        tree_ids(new_t) == tree_ids(old_t).insert(subtree_end(tree_nodes(old_t), pos_of(old_t, cur)), id),
        !tree_ids(old_t).contains(id),
    ensures
        tree_ok(new_t),
        tree_ids(new_t).contains(cur),
        tree_ids(new_t).contains(id),
        pos_of(new_t, cur) == pos_of(old_t, cur),
        pos_of(new_t, id) == subtree_end(tree_nodes(old_t), pos_of(old_t, cur)),
        pos_of(old_t, cur) < subtree_end(tree_nodes(old_t), pos_of(old_t, cur)),
        tree_nodes(new_t)[pos_of(old_t, cur)] == tree_nodes(old_t)[pos_of(old_t, cur)],
{
    let ids = tree_ids(old_t);
    let ci = ids.index_of(cur);
    assert(0 <= ci < ids.len() && ids[ci] == cur);
    lemma_append_wf(tree_nodes(old_t), ci, g);
    let e = subtree_end(tree_nodes(old_t), ci);
    lemma_insert_fresh(ids, e, id, cur);
    tree_nodes(old_t).insert_ensures(e, ((tree_nodes(old_t)[ci].0 + 1) as nat, g));
}

/// Moving to the parent of the node `cur` (at depth above 0) finds an id of the tree,
/// at the parent's position.
pub proof fn lemma_parent_found(t: ModelTree, cur: NodeId)
    requires
        tree_ok(t),
        tree_ids(t).contains(cur),
        tree_nodes(t)[pos_of(t, cur)].0 > 0,
    ensures
        0 <= parent_pos(tree_nodes(t), pos_of(t, cur)) < pos_of(t, cur),
        tree_ids(t).contains(tree_ids(t)[parent_pos(tree_nodes(t), pos_of(t, cur))]),
        pos_of(t, tree_ids(t)[parent_pos(tree_nodes(t), pos_of(t, cur))]) == parent_pos(
            tree_nodes(t),
            pos_of(t, cur),
        ),
{
    let ids = tree_ids(t);
    let nodes = tree_nodes(t);
    let ci = ids.index_of(cur);
    assert(0 <= ci < ids.len() && ids[ci] == cur);
    lemma_last_exists(nodes, ci, (nodes[ci].0 - 1) as nat);
    lemma_last_at_depth(nodes, ci, (nodes[ci].0 - 1) as nat);
    let p = parent_pos(nodes, ci);
    let pid = ids[p];
    assert(ids.contains(pid));
    let q = ids.index_of(pid);
    assert(0 <= q < ids.len() && ids[q] == pid);
}

/// The node at `i` is on the last path of the tree: every node after it is below it,
/// so a new last child of it goes at the very end.
pub open spec fn on_last_path(nodes: Seq<(nat, GroupView)>, i: int) -> bool {
    subtree_end(nodes, i) == nodes.len()
}

/// When every node from `j` on is deeper than `d`, no node at depth `d` or less is
/// found from `j`.
pub proof fn lemma_first_at_most_none(nodes: Seq<(nat, GroupView)>, j: int, d: nat)
    requires
        0 <= j <= nodes.len(),
        forall|k: int| j <= k < nodes.len() ==> nodes[k].0 > d,
    ensures
        first_at_most(nodes, j, d) == nodes.len(),
    decreases nodes.len() - j,
{
    if j < nodes.len() {
        lemma_first_at_most_none(nodes, j + 1, d);
    }
}

/// In a pre-order walk, every node between a node and its nearest earlier node at a
/// shallower depth `t` is deeper than `t`.
pub proof fn lemma_between_deeper(nodes: Seq<(nat, GroupView)>, i: int, t: nat)
    requires
        depths_wf(nodes),
        0 <= i < nodes.len(),
        t < nodes[i].0,
    ensures
        forall|k: int| last_at_depth(nodes, i, t) < k <= i ==> nodes[k].0 > t,
    decreases i,
{
    if i > 0 {
        assert(depth_step(nodes, i));
        if nodes[i - 1].0 != t {
            lemma_between_deeper(nodes, i - 1, t);
        }
    }
}

/// A new last child of a node on the last path is pushed at the end, and both the node
/// and its new child are then on the last path.
pub proof fn lemma_last_path_child(nodes: Seq<(nat, GroupView)>, i: int, g: GroupView)
    requires
        depths_wf(nodes),
        0 <= i < nodes.len(),
        on_last_path(nodes, i),
    ensures
        with_child(nodes, i, g) == nodes.push(((nodes[i].0 + 1) as nat, g)),
        on_last_path(with_child(nodes, i, g), i),
        on_last_path(with_child(nodes, i, g), nodes.len() as int),
        depths_wf(with_child(nodes, i, g)),
{
    let n2 = with_child(nodes, i, g);
    let d = nodes[i].0;
    lemma_append_wf(nodes, i, g);
    lemma_first_at_most(nodes, i + 1, d);
    assert(n2 =~= nodes.push(((d + 1) as nat, g)));
    lemma_first_at_most_none(n2, i + 1, d);
    lemma_first_at_most_none(n2, nodes.len() + 1int, (d + 1) as nat);
}

/// The parent of a node on the last path is on the last path.
pub proof fn lemma_last_path_parent(nodes: Seq<(nat, GroupView)>, i: int)
    requires
        depths_wf(nodes),
        0 <= i < nodes.len(),
        on_last_path(nodes, i),
        nodes[i].0 > 0,
    ensures
        0 <= parent_pos(nodes, i) < i,
        on_last_path(nodes, parent_pos(nodes, i)),
        nodes[parent_pos(nodes, i)].0 + 1 == nodes[i].0,
{
    let d = nodes[i].0;
    let t = (d - 1) as nat;
    lemma_last_exists(nodes, i, t);
    lemma_last_at_depth(nodes, i, t);
    lemma_between_deeper(nodes, i, t);
    lemma_first_at_most(nodes, i + 1, d);
    let p = parent_pos(nodes, i);
    assert forall|k: int| p + 1 <= k < nodes.len() implies nodes[k].0 > t by {
        if k > i {
            assert(nodes[k].0 > d);
        }
    }
    lemma_first_at_most_none(nodes, p + 1, t);
}

/// Group starts counted as +1 and group ends as -1, over all nodes.
pub open spec fn open_groups(nodes: Seq<(nat, GroupView)>) -> int
    decreases nodes.len(),
{
    if nodes.len() == 0 {
        0
    } else {
        open_groups(nodes.drop_last()) + group_weight(nodes.last().1)
    }
}

/// +1 for a group start, -1 for a group end, 0 for any other node.
pub open spec fn group_weight(g: GroupView) -> int {
    match g {
        GroupView::CNTB(_) => 1,
        GroupView::CNTE => -1,
        _ => 0,
    }
}

/// Adding a node anywhere adds its weight to the count of open groups.
pub proof fn lemma_open_groups_insert(nodes: Seq<(nat, GroupView)>, e: int, x: (nat, GroupView))
    requires
        0 <= e <= nodes.len(),
    ensures
        open_groups(nodes.insert(e, x)) == open_groups(nodes) + group_weight(x.1),
    decreases nodes.len(),
{
    let n2 = nodes.insert(e, x);
    if e == nodes.len() {
        assert(n2.drop_last() =~= nodes);
    } else {
        assert(n2.drop_last() =~= nodes.drop_last().insert(e, x));
        assert(n2.last() == nodes.last());
        lemma_open_groups_insert(nodes.drop_last(), e, x);
    }
}

/// The count of open groups over `fin[i..k]` is that of the node at `i` plus that over
/// `fin[i + 1..k]`.
pub proof fn lemma_open_groups_first(fin: Seq<(nat, GroupView)>, i: int, k: int)
    requires
        0 <= i < k <= fin.len(),
    ensures
        open_groups(fin.subrange(i, k)) == group_weight(fin[i].1) + open_groups(fin.subrange(i + 1, k)),
{
    let r = fin.subrange(i + 1, k);
    lemma_open_groups_insert(r, 0, fin[i]);
    assert(r.insert(0, fin[i]) =~= fin.subrange(i, k));
}

} // verus!
