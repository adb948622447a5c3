//! What is asked of a tree, told by the way from the root to a pane.

use vstd::prelude::*;

use crate::pane_group::direction::Axis;
use crate::pane_group::paths;
use crate::pane_group::query;
use crate::pane_group::rearrange_laws;
use crate::pane_group::render;
use crate::pane_group::tree;
use crate::pane_group::tree::AxisModel;
use crate::pane_group::tree::PaneId;
use crate::pane_group::tree::PixelBounds;
use crate::pane_group::tree::Tree;

verus! {

/// What stands once in a row of trees stands once in each of them.
proof fn lemma_once_in_member(members: Seq<Tree>, i: int, pane: PaneId)
    requires
        tree::stands_once(tree::panes_of(members), pane),
        0 <= i < members.len(),
    ensures
        tree::stands_once(tree::panes(members[i]), pane),
    decreases members.len(),
{
    let rest = members.drop_last();
    let head = tree::panes_of(rest);
    let last = tree::panes(members.last());
    let all = tree::panes_of(members);
    assert(all == head + last);
    if i < rest.len() {
        assert forall|a: int, b: int|
            0 <= a < b < head.len() && #[trigger] head[a] == pane implies #[trigger] head[b]
            != pane by {
            assert(all[a] == pane ==> all[b] != pane);
        }
        lemma_once_in_member(rest, i, pane);
    } else {
        assert forall|a: int, b: int|
            0 <= a < b < last.len() && #[trigger] last[a] == pane implies #[trigger] last[b]
            != pane by {
            assert(all[head.len() + a] == pane ==> all[head.len() + b] != pane);
        }
    }
}

/// Two leaves in which a pane that stands once stands are one.
proof fn lemma_one_leaf(tree: Tree, path: Seq<nat>, other: Seq<nat>, pane: PaneId)
    requires
        tree::stands_once(tree::panes(tree), pane),
        paths::holds_at(tree, path, pane),
        paths::holds_at(tree, other, pane),
    ensures
        path == other,
    decreases path.len(),
{
    if let Tree::Axis(axis) = tree {
        assert(path.len() > 0 && other.len() > 0);
        let i = path[0] as int;
        let j = other[0] as int;
        rearrange_laws::lemma_held_stands(axis.members[i], path.drop_first(), pane);
        rearrange_laws::lemma_held_stands(axis.members[j], other.drop_first(), pane);
        if i < j {
            render::lemma_pane_in_two_members(axis.members, i, j, pane);
        } else if j < i {
            render::lemma_pane_in_two_members(axis.members, j, i, pane);
        }
        lemma_once_in_member(axis.members, i, pane);
        lemma_one_leaf(axis.members[i], path.drop_first(), other.drop_first(), pane);
        paths::lemma_first_step(path);
        paths::lemma_first_step(other);
    } else {
        assert(path =~= other);
    }
}

/// A pane that stands once stands in one leaf, and is shown there or nowhere.
pub proof fn law_pane_that_stands_once_has_one_leaf(tree: Tree, path: Seq<nat>, pane: PaneId)
    requires
        tree::stands_once(tree::panes(tree), pane),
        paths::holds_at(tree, path, pane),
    ensures
        paths::only_held_at(tree, path, pane),
        paths::shows_at(tree, path, pane) ==> paths::only_shown_at(tree, path, pane),
        !paths::shows_at(tree, path, pane) ==> paths::shown_nowhere(tree, pane),
{
    assert forall|other: Seq<nat>| #[trigger] paths::holds_at(tree, other, pane) implies other
        == path by {
        lemma_one_leaf(tree, path, other, pane);
    }
    assert forall|other: Seq<nat>| #[trigger] paths::shows_at(tree, other, pane) implies other
        == path by {
        assert(paths::holds_at(tree, other, pane));
    }
}

proof fn lemma_leaf_shows(leaf: Tree, pane: PaneId)
    ensures
        query::leaf_pane(leaf) == Some(pane) <==> paths::shows(leaf, pane),
        paths::shows_at(leaf, Seq::empty(), pane) == paths::shows(leaf, pane),
{
}

/// Where a pane is shown nowhere, no rectangle is found for it.
proof fn lemma_no_box(axis: AxisModel, i: nat, pane: PaneId)
    requires
        forall|j: int|
            i <= j < axis.members.len() ==> paths::shown_nowhere(#[trigger] axis.members[j], pane),
    ensures
        query::box_from(axis, i, pane) is None,
    decreases axis, axis.members.len() - i,
{
    if i < axis.members.len() {
        let member = axis.members[i as int];
        assert(paths::shown_nowhere(member, pane));
        lemma_leaf_shows(member, pane);
        assert(!paths::shows_at(member, Seq::empty(), pane));
        if let Tree::Axis(inner) = member {
            paths::lemma_shown_in_no_member(inner, pane);
            lemma_no_box(inner, 0, pane);
        }
        lemma_no_box(axis, i + 1, pane);
    }
}

/// Members in which a pane is not shown are passed over.
proof fn lemma_box_skips(axis: AxisModel, i: nat, k: nat, pane: PaneId)
    requires
        i <= k < axis.members.len(),
        forall|j: int|
            0 <= j < axis.members.len() && j != k ==> paths::shown_nowhere(
                #[trigger] axis.members[j],
                pane,
            ),
    ensures
        query::box_from(axis, i, pane) == query::box_from(axis, k, pane),
    decreases k - i,
{
    if i < k {
        let member = axis.members[i as int];
        assert(paths::shown_nowhere(member, pane));
        lemma_leaf_shows(member, pane);
        assert(!paths::shows_at(member, Seq::empty(), pane));
        if let Tree::Axis(inner) = member {
            paths::lemma_shown_in_no_member(inner, pane);
            lemma_no_box(inner, 0, pane);
        }
        lemma_box_skips(axis, i + 1, k, pane);
    }
}

/// The rectangle of a pane is the one in which its axis painted the leaf that shows it. A
/// pane that is alone in its group, or not shown, has none.
pub proof fn law_box_is_where_the_leaf_was_painted(tree: Tree, path: Seq<nat>, pane: PaneId)
    ensures
        paths::only_shown_at(tree, path, pane) ==> query::box_in(tree, pane) == ({
            let axis = paths::axis_on(tree, path, path.len() - 1);
            if path.len() > 0 && path.last() < axis.boxes.len() {
                axis.boxes[path.last() as int]
            } else {
                None
            }
        }),
        paths::shown_nowhere(tree, pane) ==> query::box_in(tree, pane) is None,
    decreases path.len(),
{
    if let Tree::Axis(axis) = tree {
        if paths::shown_nowhere(tree, pane) {
            paths::lemma_shown_in_no_member(axis, pane);
            lemma_no_box(axis, 0, pane);
        }
        if paths::only_shown_at(tree, path, pane) {
            paths::lemma_only_shown_in_member(axis, path, pane);
            let k = path[0];
            let inner = axis.members[k as int];
            let rest = path.drop_first();
            lemma_box_skips(axis, 0, k, pane);
            lemma_leaf_shows(inner, pane);
            lemma_no_box(axis, k + 1, pane);
            law_box_is_where_the_leaf_was_painted(inner, rest, pane);
            if path.len() == 1 {
                assert(path.take(0) =~= Seq::empty());
                assert(rest =~= Seq::empty());
            } else {
                paths::lemma_tail(axis, path, path.len() - 1);
                assert(rest.last() == path.last());
            }
        }
    } else if paths::only_shown_at(tree, path, pane) {
        assert(path.len() == 0);
    }
}

/// Whether the member at `k` of an axis was painted in a rectangle that is hit.
pub open spec fn is_hit(axis: AxisModel, k: int, hits: spec_fn(PixelBounds) -> bool) -> bool {
    0 <= k < axis.boxes.len() && axis.boxes[k] is Some && hits(axis.boxes[k]->0)
}

/// Whether each step of a path is to the first member that is hit.
pub open spec fn follows_hits(
    tree: Tree,
    path: Seq<nat>,
    hits: spec_fn(PixelBounds) -> bool,
) -> bool {
    forall|n: int|
        0 <= n < path.len() ==> {
            let axis = #[trigger] paths::axis_on(tree, path, n);
            &&& is_hit(axis, path[n] as int, hits)
            &&& forall|j: int| 0 <= j < path[n] ==> !#[trigger] is_hit(axis, j, hits)
        }
}

proof fn lemma_hit_skips(axis: AxisModel, i: nat, k: nat, hits: spec_fn(PixelBounds) -> bool)
    requires
        i <= k <= axis.members.len(),
        forall|j: int| 0 <= j < k ==> !#[trigger] is_hit(axis, j, hits),
    ensures
        query::hit_from(axis, i, hits) == query::hit_from(axis, k, hits),
    decreases k - i,
{
    if i < k {
        assert(!is_hit(axis, i as int, hits));
        lemma_hit_skips(axis, i + 1, k, hits);
    }
}

/// The pane that is hit is the visible one of the leaf to which the first hit members lead.
/// Where they lead to an axis of which no member is hit, no pane is.
pub proof fn law_hit_pane_is_where_hits_lead(
    tree: Tree,
    path: Seq<nat>,
    hits: spec_fn(PixelBounds) -> bool,
)
    requires
        paths::node_at(tree, path) is Some,
        follows_hits(tree, path, hits),
    ensures
        match paths::node_at(tree, path)->0 {
            Tree::Axis(axis) => (forall|j: int|
                0 <= j < axis.members.len() ==> !#[trigger] is_hit(axis, j, hits))
                ==> query::hit_in(tree, hits) is None,
            Tree::Pane(pane) => query::hit_in(tree, hits) == Some(pane),
            Tree::Stack(stack) => query::hit_in(tree, hits) == (if stack.active < stack.panes.len() {
                Some(stack.panes[stack.active as int])
            } else {
                None
            }),
        },
    decreases path.len(),
{
    if let Tree::Axis(axis) = tree {
        if path.len() == 0 {
            if forall|j: int| 0 <= j < axis.members.len() ==> !#[trigger] is_hit(axis, j, hits) {
                lemma_hit_skips(axis, 0, axis.members.len(), hits);
            }
        } else {
            let k = path[0];
            let inner = axis.members[k as int];
            let rest = path.drop_first();
            assert(path.take(0) =~= Seq::empty());
            assert(paths::axis_on(tree, path, 0) == axis);
            lemma_hit_skips(axis, 0, k, hits);
            assert forall|n: int| 0 <= n < rest.len() implies {
                let axis = #[trigger] paths::axis_on(inner, rest, n);
                &&& is_hit(axis, rest[n] as int, hits)
                &&& forall|j: int| 0 <= j < rest[n] ==> !#[trigger] is_hit(axis, j, hits)
            } by {
                paths::lemma_tail(axis, path, n + 1);
                assert(rest[n] == path[n + 1]);
                assert(is_hit(paths::axis_on(tree, path, n + 1), path[n + 1] as int, hits));
            }
            law_hit_pane_is_where_hits_lead(inner, rest, hits);
        }
    }
}

/// A leaf is one column. A member more adds its columns to a row; it makes a column of trees
/// as wide as the widest. An axis of one member has the columns of that member.
pub proof fn law_columns(axis: AxisModel, member: Tree)
    ensures
        member !is Axis ==> query::columns(member) == 1,
        axis.members.len() > 0 && axis.axis == Axis::Horizontal ==> query::columns(
            Tree::Axis(AxisModel { members: axis.members.push(member), ..axis }),
        ) == query::columns(Tree::Axis(axis)) + query::columns(member),
        axis.members.len() > 0 && axis.axis == Axis::Vertical ==> query::columns(
            Tree::Axis(AxisModel { members: axis.members.push(member), ..axis }),
        ) == (if query::columns(member) > query::columns(Tree::Axis(axis)) {
            query::columns(member)
        } else {
            query::columns(Tree::Axis(axis))
        }),
        axis.members == seq![member] ==> query::columns(Tree::Axis(axis)) == query::columns(member),
{
    let longer = axis.members.push(member);
    assert(longer.drop_last() =~= axis.members);
    query::law_at_least_one_column(member);
    query::law_at_least_one_column(Tree::Axis(axis));
    if axis.members.len() > 0 {
        query::law_at_least_one_column(axis.members.last());
    }
    let one = seq![member];
    assert(one.drop_last() =~= Seq::empty());
    assert(query::columns_side_by_side(one.drop_last()) == 0);
    assert(query::columns_of_widest(one.drop_last()) == 0);
}

/// A test that answers as a function does is asked for the rectangle.
pub proof fn law_what_a_test_is_asked<F: Fn(&PixelBounds) -> bool>(
    test: F,
    hits: spec_fn(PixelBounds) -> bool,
    bounds: PixelBounds,
    answer: bool,
)
    requires
        query::decides(test, hits),
        call_ensures(test, (&bounds,), answer),
    ensures
        answer == hits(bounds),
{
}

} // verus!
