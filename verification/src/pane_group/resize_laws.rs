//! Which axis a resize acts on, told by the way from the root to the pane.

use vstd::prelude::*;

use crate::pane_group::direction::Axis;
use crate::pane_group::group;
use crate::pane_group::paths;
use crate::pane_group::query;
use crate::pane_group::resize;
use crate::pane_group::tree::AxisModel;
use crate::pane_group::tree::Flex;
use crate::pane_group::tree::PaneAxis;
use crate::pane_group::tree::PaneId;
use crate::pane_group::tree::Tree;

verus! {

/// Whether the axis after `n` steps of a path runs along `along`, and none further on does.
pub open spec fn is_nearest(tree: Tree, path: Seq<nat>, along: Axis, n: int) -> bool {
    &&& 0 <= n < path.len()
    &&& paths::axis_on(tree, path, n).axis == along
    &&& forall|m: int| n < m < path.len() ==> (#[trigger] paths::axis_on(tree, path, m)).axis != along
}

/// Whether no axis through which a path leads runs along `along`.
pub open spec fn none_runs(tree: Tree, path: Seq<nat>, along: Axis) -> bool {
    forall|m: int| 0 <= m < path.len() ==> (#[trigger] paths::axis_on(tree, path, m)).axis != along
}

/// An axis whose member at `k` traded shares with its next neighbour, or, being the last,
/// with the one before it.
pub open spec fn with_trade(
    axis: AxisModel,
    k: nat,
    adjust: spec_fn(AxisModel, nat, nat) -> Option<(Flex, Flex)>,
) -> AxisModel {
    let first: nat = if k + 1 == axis.flexes.len() {
        (k - 1) as nat
    } else {
        k
    };
    match adjust(axis, k, first) {
        Some((share, next)) => AxisModel {
            flexes: axis.flexes.update(first as int, share).update(first as int + 1, next),
            ..axis
        },
        None => axis,
    }
}

/// The nearest axis that runs along `along` is told by the last step, or there is none.
proof fn lemma_nearest_or_none(tree: Tree, path: Seq<nat>, along: Axis, upto: int) -> (n: int)
    requires
        0 <= upto <= path.len(),
        forall|m: int| upto <= m < path.len() ==> (#[trigger] paths::axis_on(tree, path, m)).axis != along,
    ensures
        is_nearest(tree, path, along, n) || none_runs(tree, path, along),
    decreases upto,
{
    if upto == 0 {
        0
    } else if paths::axis_on(tree, path, upto - 1).axis == along {
        upto - 1
    } else {
        lemma_nearest_or_none(tree, path, along, upto - 1)
    }
}

proof fn lemma_no_leaf(members: Seq<Tree>, pane: PaneId)
    requires
        forall|j: int| 0 <= j < members.len() ==> query::leaf_pane(#[trigger] members[j]) != Some(
            pane,
        ),
    ensures
        resize::leaf_index(members, pane) == members.len(),
    decreases members.len(),
{
    if members.len() > 0 {
        let rest = members.drop_first();
        assert forall|j: int| 0 <= j < rest.len() implies query::leaf_pane(#[trigger] rest[j])
            != Some(pane) by {
            assert(rest[j] == members[j + 1]);
        }
        assert(query::leaf_pane(members[0]) != Some(pane));
        lemma_no_leaf(rest, pane);
    }
}

proof fn lemma_leaf_at(members: Seq<Tree>, pane: PaneId, k: int)
    requires
        0 <= k < members.len(),
        query::leaf_pane(members[k]) == Some(pane),
        forall|j: int|
            0 <= j < members.len() && j != k ==> query::leaf_pane(#[trigger] members[j]) != Some(
                pane,
            ),
    ensures
        resize::leaf_index(members, pane) == k,
    decreases members.len(),
{
    if k > 0 {
        let rest = members.drop_first();
        assert forall|j: int| 0 <= j < rest.len() && j != k - 1 implies query::leaf_pane(
            #[trigger] rest[j],
        ) != Some(pane) by {
            assert(rest[j] == members[j + 1]);
        }
        assert(rest[k - 1] == members[k]);
        assert(query::leaf_pane(members[0]) != Some(pane));
        lemma_leaf_at(rest, pane, k - 1);
    }
}

/// A leaf shows a pane at the end of the empty path.
proof fn lemma_leaf_shows(node: Tree, pane: PaneId)
    ensures
        query::leaf_pane(node) == Some(pane) <==> paths::shows(node, pane),
        paths::shows_at(node, Seq::empty(), pane) == paths::shows(node, pane),
{
}

proof fn lemma_no_leaf_shows(members: Seq<Tree>, pane: PaneId, except: int)
    requires
        forall|j: int|
            0 <= j < members.len() && j != except ==> paths::shown_nowhere(
                #[trigger] members[j],
                pane,
            ),
    ensures
        forall|j: int|
            0 <= j < members.len() && j != except ==> query::leaf_pane(#[trigger] members[j])
                != Some(pane),
{
    assert forall|j: int| 0 <= j < members.len() && j != except implies query::leaf_pane(
        #[trigger] members[j],
    ) != Some(pane) by {
        lemma_leaf_shows(members[j], pane);
        assert(paths::shown_nowhere(members[j], pane));
        assert(!paths::shows_at(members[j], Seq::empty(), pane));
    }
}

proof fn lemma_absent(
    axis: AxisModel,
    pane: PaneId,
    along: Axis,
    adjust: spec_fn(AxisModel, nat, nat) -> Option<(Flex, Flex)>,
)
    requires
        paths::shown_nowhere(Tree::Axis(axis), pane),
    ensures
        resize::resize_axis(axis, pane, along, adjust) == (resize::Resized { done: None, axis }),
    decreases axis, axis.members.len() + 1,
{
    paths::lemma_shown_in_no_member(axis, pane);
    lemma_no_leaf_shows(axis.members, pane, -1);
    lemma_no_leaf(axis.members, pane);
    lemma_absent_from(axis, 0, None, pane, along, adjust);
}

proof fn lemma_absent_from(
    axis: AxisModel,
    i: nat,
    under: Option<nat>,
    pane: PaneId,
    along: Axis,
    adjust: spec_fn(AxisModel, nat, nat) -> Option<(Flex, Flex)>,
)
    requires
        forall|j: int|
            i <= j < axis.members.len() ==> paths::shown_nowhere(#[trigger] axis.members[j], pane),
    ensures
        resize::resize_inside(axis, i, under, pane, along, adjust) == (match under {
            None => resize::Resized { done: None, axis },
            Some(idx) => resize::adjusted_at(axis, idx, adjust),
        }),
    decreases axis, axis.members.len() - i,
{
    if i < axis.members.len() {
        assert(paths::shown_nowhere(axis.members[i as int], pane));
        if let Tree::Axis(inner) = axis.members[i as int] {
            lemma_absent(inner, pane, along, adjust);
        }
        lemma_absent_from(axis, i + 1, under, pane, along, adjust);
    }
}

/// Members in which the pane is not shown are passed over.
proof fn lemma_skip_to(
    axis: AxisModel,
    i: nat,
    k: nat,
    pane: PaneId,
    along: Axis,
    adjust: spec_fn(AxisModel, nat, nat) -> Option<(Flex, Flex)>,
)
    requires
        i <= k < axis.members.len(),
        forall|j: int|
            0 <= j < axis.members.len() && j != k ==> paths::shown_nowhere(
                #[trigger] axis.members[j],
                pane,
            ),
    ensures
        resize::resize_inside(axis, i, None, pane, along, adjust) == resize::resize_inside(
            axis,
            k,
            None,
            pane,
            along,
            adjust,
        ),
    decreases k - i,
{
    if i < k {
        assert(paths::shown_nowhere(axis.members[i as int], pane));
        if let Tree::Axis(inner) = axis.members[i as int] {
            lemma_absent(inner, pane, along, adjust);
        }
        lemma_skip_to(axis, i + 1, k, pane, along, adjust);
    }
}

proof fn lemma_resize_on_path(
    axis: AxisModel,
    path: Seq<nat>,
    pane: PaneId,
    along: Axis,
    adjust: spec_fn(AxisModel, nat, nat) -> Option<(Flex, Flex)>,
)
    requires
        paths::only_shown_at(Tree::Axis(axis), path, pane),
    ensures
        ({
            let tree = Tree::Axis(axis);
            let after = resize::resize_axis(axis, pane, along, adjust);
            &&& forall|n: int| #[trigger]
                is_nearest(tree, path, along, n) ==> after.done == Some(true) && Tree::Axis(
                    after.axis,
                ) == paths::with_node(
                    tree,
                    path.take(n),
                    Tree::Axis(with_trade(paths::axis_on(tree, path, n), path[n], adjust)),
                )
            &&& none_runs(tree, path, along) ==> after == (resize::Resized {
                done: Some(false),
                axis,
            })
        }),
    decreases path.len(),
{
    let tree = Tree::Axis(axis);
    paths::lemma_only_shown_in_member(axis, path, pane);
    let k = path[0];
    let inner = axis.members[k as int];
    let rest = path.drop_first();
    let after = resize::resize_axis(axis, pane, along, adjust);
    lemma_no_leaf_shows(axis.members, pane, k as int);
    lemma_leaf_shows(inner, pane);
    assert(path.take(0) =~= Seq::empty());
    assert(paths::axis_on(tree, path, 0) == axis);
    if path.len() == 1 {
        assert(rest =~= Seq::empty());
        lemma_leaf_at(axis.members, pane, k as int);
    } else {
        assert(paths::node_at(inner, rest) is Some);
        assert(inner is Axis);
        let inner_axis = inner->Axis_0;
        assert(!paths::shows(inner, pane));
        lemma_no_leaf(axis.members, pane);
        lemma_skip_to(axis, 0, k, pane, along, adjust);
        lemma_resize_on_path(inner_axis, rest, pane, along, adjust);
        lemma_absent_from(axis, k + 1, Some(k), pane, along, adjust);
        let deeper = resize::resize_axis(inner_axis, pane, along, adjust);
        assert forall|n: int| 0 < n <= path.len() implies #[trigger] paths::axis_on(tree, path, n)
            == paths::axis_on(inner, rest, n - 1) by {
            paths::lemma_tail(axis, path, n);
        }
        let found = lemma_nearest_or_none(inner, rest, along, rest.len() as int);
        if !none_runs(inner, rest, along) {
            assert(is_nearest(inner, rest, along, found));
        }
        if none_runs(tree, path, along) {
            assert forall|m: int| 0 <= m < rest.len() implies (#[trigger] paths::axis_on(
                inner,
                rest,
                m,
            )).axis != along by {
                assert(paths::axis_on(tree, path, m + 1).axis != along);
            }
        }
        assert forall|n: int| #[trigger] is_nearest(tree, path, along, n) implies after.done
            == Some(true) && Tree::Axis(after.axis) == paths::with_node(
            tree,
            path.take(n),
            Tree::Axis(with_trade(paths::axis_on(tree, path, n), path[n], adjust)),
        ) by {
            if n == 0 {
                assert forall|m: int| 0 <= m < rest.len() implies (#[trigger] paths::axis_on(
                    inner,
                    rest,
                    m,
                )).axis != along by {
                    assert(paths::axis_on(tree, path, m + 1).axis != along);
                }
                assert(none_runs(inner, rest, along));
            } else {
                assert forall|m: int| n - 1 < m < rest.len() implies (#[trigger] paths::axis_on(
                    inner,
                    rest,
                    m,
                )).axis != along by {
                    assert(paths::axis_on(tree, path, m + 1).axis != along);
                }
                assert(paths::axis_on(tree, path, n) == paths::axis_on(inner, rest, n - 1));
                assert(is_nearest(inner, rest, along, n - 1));
                assert(path.take(n).drop_first() =~= rest.take(n - 1));
                assert(path.take(n)[0] == k);
                assert(rest[n - 1] == path[n]);
            }
        }
    }
}

/// A resize of a pane that is shown once changes the shares of one axis: of those on the way
/// from the root to the pane, the last that runs along the asked axis. There the member that
/// leads to the pane trades shares with its next neighbour, or, being the last, with the one
/// before it. Nothing else changes, and nothing at all where no axis on the way runs that way.
pub proof fn law_resize_acts_on_nearest_axis(
    tree: Tree,
    path: Seq<nat>,
    pane: PaneId,
    along: Axis,
    adjust: spec_fn(AxisModel, nat, nat) -> Option<(Flex, Flex)>,
    n: int,
)
    requires
        paths::only_shown_at(tree, path, pane),
    ensures
        is_nearest(tree, path, along, n) ==> group::resized(tree, pane, along, adjust)
            == paths::with_node(
            tree,
            path.take(n),
            Tree::Axis(with_trade(paths::axis_on(tree, path, n), path[n], adjust)),
        ),
        none_runs(tree, path, along) ==> group::resized(tree, pane, along, adjust) == tree,
{
    if let Tree::Axis(axis) = tree {
        lemma_resize_on_path(axis, path, pane, along, adjust);
    } else {
        assert(path.len() == 0);
    }
}

/// Either an axis on the way to a pane is the last that runs along an axis, or none does.
pub proof fn law_nearest_axis_or_none(tree: Tree, path: Seq<nat>, along: Axis)
    ensures
        none_runs(tree, path, along) || exists|n: int| is_nearest(tree, path, along, n),
{
    let n = lemma_nearest_or_none(tree, path, along, path.len() as int);
}

/// A resize of a pane that is not shown changes nothing.
pub proof fn law_resize_of_hidden_pane(
    tree: Tree,
    pane: PaneId,
    along: Axis,
    adjust: spec_fn(AxisModel, nat, nat) -> Option<(Flex, Flex)>,
)
    requires
        paths::shown_nowhere(tree, pane),
    ensures
        group::resized(tree, pane, along, adjust) == tree,
{
    if let Tree::Axis(axis) = tree {
        lemma_absent(axis, pane, along, adjust);
    }
}

/// The shares of every axis but the one that is acted on stay as they were, and so does
/// everything else of every node.
pub proof fn law_resize_keeps_other_axes(
    tree: Tree,
    path: Seq<nat>,
    pane: PaneId,
    along: Axis,
    adjust: spec_fn(AxisModel, nat, nat) -> Option<(Flex, Flex)>,
    n: int,
    other: Seq<nat>,
)
    requires
        paths::only_shown_at(tree, path, pane),
        is_nearest(tree, path, along, n),
        paths::node_at(tree, other) is Some,
        other != path.take(n),
    ensures
        ({
            let after = group::resized(tree, pane, along, adjust);
            &&& paths::node_at(after, other) is Some
            &&& paths::same_but_members(
                paths::node_at(tree, other)->0,
                paths::node_at(after, other)->0,
            )
        }),
{
    law_resize_acts_on_nearest_axis(tree, path, pane, along, adjust, n);
    let to = path.take(n);
    let node = Tree::Axis(with_trade(paths::axis_on(tree, path, n), path[n], adjust));
    paths::lemma_prefix_leads(tree, path, n);
    paths::law_one_node_is_replaced(tree, to, node, other);
    if paths::leads_through(other, to) {
        let below = other.skip(n);
        paths::lemma_split_path(tree, to, other);
        assert(below.len() > 0) by {
            if below.len() == 0 {
                assert(other =~= to);
            }
        }
        assert(paths::node_at(node, below) == paths::node_at(
            paths::node_at(tree, to)->0,
            below,
        ));
    }
}

/// A resize answers whether it acted: it did where an axis on the way to the pane runs along
/// the asked axis, and it found nothing where the pane is not shown.
pub proof fn law_resize_tells_whether_it_acted(
    axis: AxisModel,
    path: Seq<nat>,
    pane: PaneId,
    along: Axis,
    adjust: spec_fn(AxisModel, nat, nat) -> Option<(Flex, Flex)>,
    n: int,
)
    ensures
        ({
            let tree = Tree::Axis(axis);
            let done = resize::resize_axis(axis, pane, along, adjust).done;
            &&& paths::shown_nowhere(tree, pane) ==> done is None
            &&& paths::only_shown_at(tree, path, pane) && is_nearest(tree, path, along, n) ==> done
                == Some(true)
            &&& paths::only_shown_at(tree, path, pane) && none_runs(tree, path, along) ==> done
                == Some(false)
        }),
{
    if paths::shown_nowhere(Tree::Axis(axis), pane) {
        lemma_absent(axis, pane, along, adjust);
    }
    if paths::only_shown_at(Tree::Axis(axis), path, pane) {
        lemma_resize_on_path(axis, path, pane, along, adjust);
    }
}

proof fn lemma_not_found(axis: AxisModel, pane: PaneId, along: Axis)
    requires
        paths::shown_nowhere(Tree::Axis(axis), pane),
    ensures
        resize::found_in(axis, pane, along) is None,
        resize::is_ready(axis, pane, along),
    decreases axis, axis.members.len() + 1,
{
    paths::lemma_shown_in_no_member(axis, pane);
    lemma_no_leaf_shows(axis.members, pane, -1);
    lemma_no_leaf(axis.members, pane);
    lemma_not_found_from(axis, 0, None, pane, along);
}

proof fn lemma_not_found_from(
    axis: AxisModel,
    i: nat,
    under: Option<nat>,
    pane: PaneId,
    along: Axis,
)
    requires
        forall|j: int|
            i <= j < axis.members.len() ==> paths::shown_nowhere(#[trigger] axis.members[j], pane),
    ensures
        resize::found_inside(axis, i, under is Some, pane, along) == (if under is Some {
            Some(true)
        } else {
            None
        }),
        resize::is_ready_inside(axis, i, under, pane, along) <==> (under matches Some(idx)
            ==> resize::can_trade(axis, idx)),
    decreases axis, axis.members.len() - i,
{
    if i < axis.members.len() {
        assert(paths::shown_nowhere(axis.members[i as int], pane));
        if let Tree::Axis(inner) = axis.members[i as int] {
            lemma_not_found(inner, pane, along);
        }
        lemma_not_found_from(axis, i + 1, under, pane, along);
    }
}

proof fn lemma_ready_skips_to(axis: AxisModel, i: nat, k: nat, pane: PaneId, along: Axis)
    requires
        i <= k < axis.members.len(),
        forall|j: int|
            0 <= j < axis.members.len() && j != k ==> paths::shown_nowhere(
                #[trigger] axis.members[j],
                pane,
            ),
    ensures
        resize::found_inside(axis, i, false, pane, along) == resize::found_inside(
            axis,
            k,
            false,
            pane,
            along,
        ),
        resize::is_ready_inside(axis, i, None, pane, along) == resize::is_ready_inside(
            axis,
            k,
            None,
            pane,
            along,
        ),
    decreases k - i,
{
    if i < k {
        assert(paths::shown_nowhere(axis.members[i as int], pane));
        if let Tree::Axis(inner) = axis.members[i as int] {
            lemma_not_found(inner, pane, along);
        }
        lemma_ready_skips_to(axis, i + 1, k, pane, along);
    }
}

proof fn lemma_ready_on_path(axis: AxisModel, path: Seq<nat>, pane: PaneId, along: Axis)
    requires
        paths::only_shown_at(Tree::Axis(axis), path, pane),
    ensures
        forall|n: int| #[trigger]
            is_nearest(Tree::Axis(axis), path, along, n) ==> resize::found_in(axis, pane, along)
                == Some(true) && (resize::is_ready(axis, pane, along) <==> resize::can_trade(
                paths::axis_on(Tree::Axis(axis), path, n),
                path[n],
            )),
        none_runs(Tree::Axis(axis), path, along) ==> resize::found_in(axis, pane, along) == Some(
            false,
        ) && resize::is_ready(axis, pane, along),
    decreases path.len(),
{
    let tree = Tree::Axis(axis);
    paths::lemma_only_shown_in_member(axis, path, pane);
    let k = path[0];
    let inner = axis.members[k as int];
    let rest = path.drop_first();
    lemma_no_leaf_shows(axis.members, pane, k as int);
    lemma_leaf_shows(inner, pane);
    assert(path.take(0) =~= Seq::empty());
    assert(paths::axis_on(tree, path, 0) == axis);
    if path.len() == 1 {
        assert(rest =~= Seq::empty());
        lemma_leaf_at(axis.members, pane, k as int);
    } else {
        assert(paths::node_at(inner, rest) is Some);
        assert(inner is Axis);
        assert(!paths::shows(inner, pane));
        lemma_no_leaf(axis.members, pane);
        lemma_ready_skips_to(axis, 0, k, pane, along);
        lemma_ready_on_path(inner->Axis_0, rest, pane, along);
        lemma_not_found_from(axis, k + 1, Some(k), pane, along);
        assert forall|n: int| 0 < n <= path.len() implies #[trigger] paths::axis_on(tree, path, n)
            == paths::axis_on(inner, rest, n - 1) by {
            paths::lemma_tail(axis, path, n);
        }
        let found = lemma_nearest_or_none(inner, rest, along, rest.len() as int);
        if !none_runs(inner, rest, along) {
            assert(is_nearest(inner, rest, along, found));
        }
        if none_runs(tree, path, along) {
            assert forall|m: int| 0 <= m < rest.len() implies (#[trigger] paths::axis_on(
                inner,
                rest,
                m,
            )).axis != along by {
                assert(paths::axis_on(tree, path, m + 1).axis != along);
            }
        }
        assert forall|n: int| #[trigger] is_nearest(tree, path, along, n) implies resize::found_in(
            axis,
            pane,
            along,
        ) == Some(true) && (resize::is_ready(axis, pane, along) <==> resize::can_trade(
            paths::axis_on(tree, path, n),
            path[n],
        )) by {
            assert forall|m: int| n - 1 < m < rest.len() && 0 <= m implies (
            #[trigger] paths::axis_on(inner, rest, m)).axis != along by {
                assert(paths::axis_on(tree, path, m + 1).axis != along);
            }
            if n == 0 {
                assert(none_runs(inner, rest, along));
            } else {
                assert(paths::axis_on(tree, path, n) == paths::axis_on(inner, rest, n - 1));
                assert(is_nearest(inner, rest, along, n - 1));
                assert(rest[n - 1] == path[n]);
            }
        }
    }
}

/// A pane can be resized along an axis unless the axis that would be acted on has no share
/// for the member on the way to the pane, or no other share to trade with.
pub proof fn law_when_a_pane_can_be_resized(
    tree: Tree,
    path: Seq<nat>,
    pane: PaneId,
    along: Axis,
    n: int,
)
    ensures
        paths::only_shown_at(tree, path, pane) && is_nearest(tree, path, along, n) ==> (
        resize::resizable(tree, pane, along) <==> path[n] < paths::axis_on(
            tree,
            path,
            n,
        ).flexes.len() && paths::axis_on(tree, path, n).flexes.len() >= 2),
        paths::only_shown_at(tree, path, pane) && none_runs(tree, path, along)
            ==> resize::resizable(tree, pane, along),
        paths::shown_nowhere(tree, pane) ==> resize::resizable(tree, pane, along),
{
    if let Tree::Axis(axis) = tree {
        if paths::only_shown_at(tree, path, pane) {
            lemma_ready_on_path(axis, path, pane, along);
        }
        if paths::shown_nowhere(tree, pane) {
            lemma_not_found(axis, pane, along);
        }
    } else if paths::only_shown_at(tree, path, pane) {
        assert(path.len() == 0);
    }
}

/// An adjustment that answers as a function does is asked for the axis, the member that is
/// resized and the first of the two that trade.
pub proof fn law_what_an_adjustment_is_asked<
    F: Fn(&PaneAxis, usize, usize) -> Option<(Flex, Flex)>,
>(
    adjustment: F,
    adjust: spec_fn(AxisModel, nat, nat) -> Option<(Flex, Flex)>,
    axis: PaneAxis,
    idx: usize,
    first: usize,
    shares: Option<(Flex, Flex)>,
)
    requires
        resize::adjusts(adjustment, adjust),
        call_ensures(adjustment, (&axis, idx, first), shares),
    ensures
        shares == adjust(axis.model(), idx as nat, first as nat),
{
}

} // verus!
