//! Paths from the root of a pane tree to its nodes.

use vstd::prelude::*;

use crate::pane_group::tree::AxisModel;
use crate::pane_group::tree::PaneId;
use crate::pane_group::tree::Tree;

verus! {

/// The node that a path leads to; each step is the index of a member of an axis.
pub open spec fn node_at(tree: Tree, path: Seq<nat>) -> Option<Tree>
    decreases path.len(),
{
    if path.len() == 0 {
        Some(tree)
    } else {
        match tree {
            Tree::Axis(axis) => if path[0] < axis.members.len() {
                node_at(axis.members[path[0] as int], path.drop_first())
            } else {
                None
            },
            _ => None,
        }
    }
}

/// A tree with another node where a path leads to.
pub open spec fn with_node(tree: Tree, path: Seq<nat>, node: Tree) -> Tree
    decreases path.len(),
{
    if path.len() == 0 {
        node
    } else {
        match tree {
            Tree::Axis(axis) => if path[0] < axis.members.len() {
                let inner = axis.members[path[0] as int];
                Tree::Axis(
                    AxisModel {
                        members: axis.members.update(
                            path[0] as int,
                            with_node(inner, path.drop_first(), node),
                        ),
                        ..axis
                    },
                )
            } else {
                tree
            },
            leaf => leaf,
        }
    }
}

/// Whether a leaf shows a pane: it is that pane, or a stack whose visible pane it is.
pub open spec fn shows(node: Tree, pane: PaneId) -> bool {
    match node {
        Tree::Axis(_) => false,
        Tree::Pane(only) => only == pane,
        Tree::Stack(stack) => stack.active < stack.panes.len() && stack.panes[stack.active as int]
            == pane,
    }
}

/// Whether a leaf has a pane, visible or not.
pub open spec fn holds(node: Tree, pane: PaneId) -> bool {
    match node {
        Tree::Axis(_) => false,
        Tree::Pane(only) => only == pane,
        Tree::Stack(stack) => stack.panes.contains(pane),
    }
}

/// Whether the leaf that a path leads to shows a pane.
pub open spec fn shows_at(tree: Tree, path: Seq<nat>, pane: PaneId) -> bool {
    node_at(tree, path) is Some && shows(node_at(tree, path)->0, pane)
}

/// Whether the leaf that a path leads to has a pane.
pub open spec fn holds_at(tree: Tree, path: Seq<nat>, pane: PaneId) -> bool {
    node_at(tree, path) is Some && holds(node_at(tree, path)->0, pane)
}

/// Whether a pane is shown where a path leads to, and nowhere else.
pub open spec fn only_shown_at(tree: Tree, path: Seq<nat>, pane: PaneId) -> bool {
    &&& shows_at(tree, path, pane)
    &&& forall|other: Seq<nat>| #[trigger] shows_at(tree, other, pane) ==> other == path
}

/// Whether a pane is shown nowhere.
pub open spec fn shown_nowhere(tree: Tree, pane: PaneId) -> bool {
    forall|path: Seq<nat>| !#[trigger] shows_at(tree, path, pane)
}

/// Whether a pane stands in the leaf that a path leads to, and in no other.
pub open spec fn only_held_at(tree: Tree, path: Seq<nat>, pane: PaneId) -> bool {
    &&& holds_at(tree, path, pane)
    &&& forall|other: Seq<nat>| #[trigger] holds_at(tree, other, pane) ==> other == path
}

/// Whether one path leads through where another leads to, or to the same node.
pub open spec fn leads_through(path: Seq<nat>, to: Seq<nat>) -> bool {
    to.len() <= path.len() && path.take(to.len() as int) == to
}

/// A path through a member of an axis goes on inside that member.
pub(crate) proof fn lemma_step(axis: AxisModel, i: nat, path: Seq<nat>)
    requires
        i < axis.members.len(),
    ensures
        node_at(Tree::Axis(axis), seq![i] + path) == node_at(axis.members[i as int], path),
        (seq![i] + path).drop_first() == path,
{
    assert((seq![i] + path).drop_first() =~= path);
}

/// A path is its first step and the rest.
pub(crate) proof fn lemma_first_step(path: Seq<nat>)
    requires
        path.len() > 0,
    ensures
        seq![path[0]] + path.drop_first() == path,
{
    assert(seq![path[0]] + path.drop_first() =~= path);
}

/// What is shown once in an axis is shown once in one member and nowhere in the others.
pub(crate) proof fn lemma_only_shown_in_member(axis: AxisModel, path: Seq<nat>, pane: PaneId)
    requires
        only_shown_at(Tree::Axis(axis), path, pane),
    ensures
        path.len() > 0,
        path[0] < axis.members.len(),
        only_shown_at(axis.members[path[0] as int], path.drop_first(), pane),
        forall|j: int|
            0 <= j < axis.members.len() && j != path[0] ==> shown_nowhere(
                #[trigger] axis.members[j],
                pane,
            ),
{
    let tree = Tree::Axis(axis);
    assert(path.len() > 0);
    let inner = axis.members[path[0] as int];
    lemma_first_step(path);
    assert forall|other: Seq<nat>| #[trigger] shows_at(inner, other, pane) implies other
        == path.drop_first() by {
        lemma_step(axis, path[0], other);
        assert(shows_at(tree, seq![path[0]] + other, pane));
        assert((seq![path[0]] + other).drop_first() == other);
    }
    assert forall|j: int| 0 <= j < axis.members.len() && j != path[0] implies shown_nowhere(
        #[trigger] axis.members[j],
        pane,
    ) by {
        assert forall|other: Seq<nat>| !#[trigger] shows_at(axis.members[j], other, pane) by {
            lemma_step(axis, j as nat, other);
            if shows_at(axis.members[j], other, pane) {
                assert(shows_at(tree, seq![j as nat] + other, pane));
                assert((seq![j as nat] + other)[0] == j);
            }
        }
    }
}

/// What is shown nowhere in an axis is shown in no member.
pub(crate) proof fn lemma_shown_in_no_member(axis: AxisModel, pane: PaneId)
    requires
        shown_nowhere(Tree::Axis(axis), pane),
    ensures
        forall|j: int|
            0 <= j < axis.members.len() ==> shown_nowhere(#[trigger] axis.members[j], pane),
{
    assert forall|j: int| 0 <= j < axis.members.len() implies shown_nowhere(
        #[trigger] axis.members[j],
        pane,
    ) by {
        assert forall|other: Seq<nat>| !#[trigger] shows_at(axis.members[j], other, pane) by {
            lemma_step(axis, j as nat, other);
            assert(!shows_at(Tree::Axis(axis), seq![j as nat] + other, pane));
        }
    }
}

/// What stands in one leaf of an axis stands in one leaf of one member and in no other member.
pub(crate) proof fn lemma_only_held_in_member(axis: AxisModel, path: Seq<nat>, pane: PaneId)
    requires
        only_held_at(Tree::Axis(axis), path, pane),
    ensures
        path.len() > 0,
        path[0] < axis.members.len(),
        only_held_at(axis.members[path[0] as int], path.drop_first(), pane),
        forall|j: int, other: Seq<nat>|
            0 <= j < axis.members.len() && j != path[0] ==> !#[trigger] holds_at(
                axis.members[j],
                other,
                pane,
            ),
{
    let tree = Tree::Axis(axis);
    assert(path.len() > 0);
    let inner = axis.members[path[0] as int];
    lemma_first_step(path);
    assert forall|other: Seq<nat>| #[trigger] holds_at(inner, other, pane) implies other
        == path.drop_first() by {
        lemma_step(axis, path[0], other);
        assert(holds_at(tree, seq![path[0]] + other, pane));
        assert((seq![path[0]] + other).drop_first() == other);
    }
    assert forall|j: int, other: Seq<nat>|
        0 <= j < axis.members.len() && j != path[0] implies !#[trigger] holds_at(
        axis.members[j],
        other,
        pane,
    ) by {
        lemma_step(axis, j as nat, other);
        if holds_at(axis.members[j], other, pane) {
            assert(holds_at(tree, seq![j as nat] + other, pane));
            assert((seq![j as nat] + other)[0] == j);
        }
    }
}

/// Whether two nodes are of one kind, and differ at most in the members of an axis.
pub open spec fn same_but_members(a: Tree, b: Tree) -> bool {
    match (a, b) {
        (Tree::Axis(a), Tree::Axis(b)) => a.axis == b.axis && a.members.len() == b.members.len()
            && a.flexes == b.flexes && a.boxes == b.boxes,
        _ => a == b,
    }
}

/// Putting a node where a path leads to puts it there, and changes no node to which the path
/// does not lead, but for the members of the axes on the way.
pub proof fn law_one_node_is_replaced(
    tree: Tree,
    path: Seq<nat>,
    node: Tree,
    other: Seq<nat>,
)
    requires
        node_at(tree, path) is Some,
    ensures
        node_at(with_node(tree, path, node), path) == Some(node),
        leads_through(other, path) ==> node_at(with_node(tree, path, node), other) == node_at(
            node,
            other.skip(path.len() as int),
        ),
        !leads_through(other, path) ==> match (
            node_at(tree, other),
            node_at(with_node(tree, path, node), other),
        ) {
            (Some(was), Some(is)) => same_but_members(was, is) && (!leads_through(path, other)
                ==> was == is),
            (None, None) => true,
            _ => false,
        },
    decreases path.len(),
{
    let after = with_node(tree, path, node);
    if path.len() == 0 {
        assert(other.take(0) =~= path);
        assert(other.skip(0) =~= other);
    } else {
        let axis = tree->Axis_0;
        let inner = axis.members[path[0] as int];
        let rest = path.drop_first();
        law_one_node_is_replaced(inner, rest, node, rest);
        lemma_first_step(path);
        if other.len() > 0 && other[0] == path[0] {
            let tail = other.drop_first();
            law_one_node_is_replaced(inner, rest, node, tail);
            lemma_first_step(other);
            if leads_through(other, path) {
                assert(tail.take(rest.len() as int) =~= other.take(path.len() as int).drop_first());
                assert(tail.skip(rest.len() as int) =~= other.skip(path.len() as int));
            } else if leads_through(tail, rest) {
                assert(other.take(path.len() as int) =~= seq![path[0]] + tail.take(
                    rest.len() as int,
                ));
            }
            if leads_through(path, other) {
                assert(rest.take(tail.len() as int) =~= path.take(other.len() as int).drop_first());
            } else if leads_through(rest, tail) {
                assert(path.take(other.len() as int) =~= seq![path[0]] + rest.take(
                    tail.len() as int,
                ));
            }
        } else if other.len() > 0 {
            if leads_through(other, path) {
                assert(other.take(path.len() as int)[0] == other[0]);
            }
            if leads_through(path, other) {
                assert(path.take(other.len() as int)[0] == path[0]);
            }
        } else {
            assert(path.take(0) =~= other);
        }
    }
}

/// The axis through which a path leads after `n` steps.
pub open spec fn axis_on(tree: Tree, path: Seq<nat>, n: int) -> AxisModel {
    node_at(tree, path.take(n))->0->Axis_0
}

/// The first steps of a path through a member go on inside that member.
pub(crate) proof fn lemma_tail(axis: AxisModel, path: Seq<nat>, n: int)
    requires
        0 < n <= path.len(),
        path[0] < axis.members.len(),
    ensures
        node_at(Tree::Axis(axis), path.take(n)) == node_at(
            axis.members[path[0] as int],
            path.drop_first().take(n - 1),
        ),
        axis_on(Tree::Axis(axis), path, n) == axis_on(
            axis.members[path[0] as int],
            path.drop_first(),
            n - 1,
        ),
{
    assert(path.take(n).drop_first() =~= path.drop_first().take(n - 1));
}

/// Every step of a path to a node leads through an axis.
pub(crate) proof fn lemma_prefix_leads(tree: Tree, path: Seq<nat>, n: int)
    requires
        node_at(tree, path) is Some,
        0 <= n < path.len(),
    ensures
        node_at(tree, path.take(n)) matches Some(node) && node is Axis,
    decreases path.len(),
{
    assert(tree is Axis);
    if n > 0 {
        lemma_prefix_leads(tree->Axis_0.members[path[0] as int], path.drop_first(), n - 1);
        lemma_tail(tree->Axis_0, path, n);
    } else {
        assert(path.take(0) =~= Seq::empty());
    }
}

/// A longer path goes on from where a shorter one leads to.
pub(crate) proof fn lemma_split_path(tree: Tree, to: Seq<nat>, path: Seq<nat>)
    requires
        leads_through(path, to),
        node_at(tree, to) is Some,
    ensures
        node_at(tree, path) == node_at(
            node_at(tree, to)->0,
            path.skip(to.len() as int),
        ),
    decreases to.len(),
{
    if to.len() == 0 {
        assert(path.skip(0) =~= path);
    } else {
        let axis = tree->Axis_0;
        assert(path.take(to.len() as int)[0] == to[0]);
        assert(path.drop_first().take(to.len() - 1) =~= path.take(to.len() as int).drop_first());
        assert(path.drop_first().skip(to.len() - 1) =~= path.skip(to.len() as int));
        lemma_split_path(axis.members[to[0] as int], to.drop_first(), path.drop_first());
    }
}

} // verus!
