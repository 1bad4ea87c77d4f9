//! What a workspace asks of a builder, and what it makes of the answers, in terms of what callers
//! ask of the workspace.

use crate::protocol::{ContentId, SpaceId, ViewId};
use crate::view::bindings::content_of;
use crate::view::compound::{ChildModel, CompoundModel, LinkModel};
use crate::view::extension::definition::ViewExtensionPaneSide;
use crate::view::forest::{
    subtree, switch_target, switchable_above, under, under_within, SubtreeFault,
};
use crate::view::instance::{document_of, ViewModel};
use crate::view::layout::LayoutError;
use crate::view::panes::{key_for, space_for, BODY_PANE, STATUS_PANE};
use crate::view::scene::{
    focusable_at, law_preferred_focus, leaves, parent_at, view_at, Exchange, Leaf, SceneAnswer,
    SceneError, SceneModel, SceneRequest, Sizing, SplitDirection,
};
use crate::view::soundness::WorkspaceModel;
use crate::view::talk::requests_of;
use crate::view::workspace::changes::{focused_on, opened, split_refuses, was_split, SplitOutcome};
use crate::view::workspace::closing::{
    close_requests, kept_for, kept_global, own_status, replace_requests, was_closed, was_replaced,
    whole_of,
};
use crate::view::workspace::compounds::{compound_children, was_compounded, CompoundSteps};
use crate::view::workspace::extension_panes::{is_reserved, pane_said};
use crate::view::workspace::family::{
    broken_link, children_refusal, compose_refusal, composed, compound_fault,
};
use crate::view::workspace::queries::{
    blocks, body_refusal, body_space, first_body, first_reference, goes_with, is_removal_root,
    needs_replacement, removed_with, replacement_space, status_bar, subtree_refusal, subtree_root,
};
use crate::view::workspace::removal::{closing_order, orders, space_numbers, to_close};
use crate::view::workspace::status::{
    bar_closed, bars_of, body_leaves, chosen_status, gathered, gave_bar, spread, spread_editors,
    status_sizing, was_gathered, was_spread, with_bars, without_bars, wrap_requests, GatherOutcome,
    SpreadOutcome,
};
use crate::view::workspace::steps::{added, revised, sync_requests, synced};
use vstd::prelude::*;
use vstd::view::View as _;

verus! {

/// What is asked is what the exchanges carry.
proof fn lemma_requests(said: Seq<Exchange>)
    ensures
        requests_of(said).len() == said.len(),
        forall|i: int| 0 <= i < said.len() ==> requests_of(said)[i] == (#[trigger] said[i]).request,
{
}

/// A split asks the builder first, and for exactly what the caller asked for: the new view, next to
/// the space that was given or to what is around it where each view has its status bar, on the side
/// and with the focusability that were given. The only other thing that it may ask is that the one
/// status bar goes to the view that has the focus.
pub proof fn law_split_asks_for_what_was_given(
    before: WorkspaceModel,
    after: WorkspaceModel,
    said: Seq<Exchange>,
    target: SpaceId,
    view: ViewModel,
    focusable: bool,
    direction: SplitDirection,
    focus_new: bool,
    outcome: SplitOutcome,
)
    requires
        was_split(before, after, said, target, view, focusable, direction, focus_new, outcome),
    ensures
        1 <= said.len() <= 2,
        before.placement is Global ==> (said[0].request matches SceneRequest::Split {
            target: asked_target,
            view: asked_view,
            focusable: asked_focusable,
            direction: asked_direction,
        } && asked_target == target && asked_view.0 == before.next_view_id && asked_focusable
            == focusable && asked_direction == direction),
        before.placement is PerPane ==> (said[0].request matches SceneRequest::SplitPane {
            target: asked_target,
            view: asked_view,
            status: asked_status,
            focusable: asked_focusable,
            direction: asked_direction,
        } && parent_at(before.nodes, target) == Some(asked_target) && asked_view.0
            == before.next_view_id && asked_status.0 == before.next_view_id && asked_focusable
            == focusable && asked_direction == direction),
        said.len() == 2 ==> before.placement is Global && (said[1].request
            matches SceneRequest::Replace { target: bar, view: editor, focusable: takes_focus }
            && before.global_status == Some(bar) && !takes_focus),
{
    lemma_requests(said);
    assert(requests_of(said)[0] == said[0].request);
    if said.len() == 2 {
        assert(requests_of(said)[1] == said[1].request);
    }
}

/// A split that fails has asked the builder first for exactly what the caller asked for, if it has
/// asked for anything.
pub proof fn law_failed_split_asked_for_what_was_given(
    before: WorkspaceModel,
    target: SpaceId,
    view: ViewModel,
    focusable: bool,
    direction: SplitDirection,
    focus_new: bool,
    said: Seq<Exchange>,
    error: LayoutError,
)
    requires
        split_refuses(before, target, view, focusable, direction, focus_new, said, error),
        said.len() > 0,
    ensures
        match said[0].request {
            SceneRequest::Split {
                target: asked_target,
                view: asked_view,
                focusable: asked_focusable,
                direction: asked_direction,
            } => before.placement is Global && asked_target == target && asked_view.0
                == before.next_view_id && asked_focusable == focusable && asked_direction
                == direction,
            SceneRequest::SplitPane {
                target: asked_target,
                view: asked_view,
                status: asked_status,
                focusable: asked_focusable,
                direction: asked_direction,
            } => before.placement is PerPane && parent_at(before.nodes, target) == Some(
                asked_target,
            ) && asked_view.0 == before.next_view_id && asked_focusable == focusable
                && asked_direction == direction,
            _ => false,
        },
{
    lemma_requests(said);
    lemma_requests(said.take(1));
    assert(said.take(1)[0] == said[0]);
    assert(requests_of(said)[0] == said[0].request);
    assert(requests_of(said.take(1))[0] == said[0].request);
}

/// After a split the new view is about what was given, and uses the space that the builder made as
/// its main area. The focus is there where that was asked for and the space can have it, and stays
/// where it was not asked for and its space still can. Other views are what they were, but for the
/// one status bar.
pub proof fn law_split_shows_the_view_and_puts_the_focus(
    before: WorkspaceModel,
    after: WorkspaceModel,
    said: Seq<Exchange>,
    target: SpaceId,
    view: ViewModel,
    focusable: bool,
    direction: SplitDirection,
    focus_new: bool,
    outcome: SplitOutcome,
)
    requires
        was_split(before, after, said, target, view, focusable, direction, focus_new, outcome),
        before.scene_revision < u64::MAX,
        before.next_view_id < u64::MAX,
        before.global_status != Some(outcome.new_space),
        outcome.status != Some(outcome.new_space),
    ensures
        after.next_view_id == before.next_view_id + 1,
        after.scene_revision == before.scene_revision + 1,
        after.placement == before.placement,
        after.global_status == before.global_status,
        said[0].answer matches SceneAnswer::Split(space) ==> space == outcome.new_space,
        said[0].answer matches SceneAnswer::Pane(pane) ==> pane.editor_space == outcome.new_space
            && outcome.status == Some(pane.status_space),
        after.views.contains_key(before.next_view_id),
        key_for(after.views[before.next_view_id].panes, outcome.new_space) == Some("body"@),
        after.views[before.next_view_id].bindings == view.bindings,
        after.views[before.next_view_id].definition == view.definition,
        after.views[before.next_view_id].document_state == view.document_state,
        focus_new && focusable_at(outcome.scene.nodes, outcome.new_space) == Some(true)
            ==> after.focused == outcome.new_space,
        !focus_new && focusable_at(outcome.scene.nodes, before.focused) == Some(true)
            ==> after.focused == before.focused,
{
    reveal_strlit("body");
    reveal_strlit("builtin.status");
    assert(BODY_PANE@.len() == 4);
    assert(STATUS_PANE@.len() == 14);
    law_preferred_focus(outcome.scene.nodes, before.focused, outcome.new_space);
    law_preferred_focus(outcome.scene.nodes, before.focused, before.focused);
}

/// The one status bar is asked to go to the view that has the focus exactly where it is with
/// another one, and then has it; bars that each view has for itself stay.
pub proof fn law_status_bar_is_asked_to_follow(
    workspace: WorkspaceModel,
    bar: SpaceId,
    previous: ViewId,
    editor: ViewId,
    scene: SceneModel,
)
    requires
        workspace.placement is Global,
        workspace.global_status == Some(bar),
        view_at(workspace.nodes, bar) == Some(previous),
        view_at(workspace.nodes, workspace.focused) == Some(editor),
        workspace.views.contains_key(previous.0),
        workspace.views.contains_key(editor.0),
    ensures
        previous == editor ==> sync_requests(workspace).len() == 0 && synced(workspace, scene)
            == workspace,
        previous != editor ==> {
            let after = synced(workspace, scene);
            &&& sync_requests(workspace).len() == 1
            &&& sync_requests(workspace)[0] == (SceneRequest::Replace {
                target: bar,
                view: editor,
                focusable: false,
            })
            &&& key_for(after.views[editor.0].panes, bar) == Some("builtin.status"@)
            &&& !after.views[previous.0].panes.contains_key(bar)
            &&& after.nodes == scene.nodes
            &&& after.focused == workspace.focused
            &&& after.views.dom() == workspace.views.dom()
            &&& forall|other: u64|
                #![trigger after.views[other]]
                other != previous.0 && other != editor.0 ==> after.views[other]
                    == workspace.views[other]
        },
{
    assert(previous.0 == editor.0 ==> previous == editor);
    assert(synced(workspace, scene).views.dom() =~= workspace.views.dom());
}

/// Where each view has its status bar for itself, nothing is asked when the focus moves.
pub proof fn law_bars_of_views_stay(workspace: WorkspaceModel, scene: SceneModel)
    requires
        workspace.placement is PerPane,
    ensures
        sync_requests(workspace).len() == 0,
        synced(workspace, scene) == workspace,
{
}

/// When the focus goes to a space, that space has it and a revision is counted; no number is given
/// out, and status bars stay placed as they are.
pub proof fn law_focus_is_where_it_was_put(
    workspace: WorkspaceModel,
    space: SpaceId,
    scene: SceneModel,
)
    requires
        workspace.scene_revision < u64::MAX,
    ensures
        ({
            let after = revised(synced(focused_on(workspace, space), scene));
            &&& after.focused == space
            &&& after.scene_revision == workspace.scene_revision + 1
            &&& after.next_view_id == workspace.next_view_id
            &&& after.placement == workspace.placement
            &&& after.global_status == workspace.global_status
            &&& after.status_by_editor == workspace.status_by_editor
        }),
{
}

proof fn lemma_closing_order(
    workspace: WorkspaceModel,
    list: Seq<u64>,
    target: SpaceId,
    kept: Seq<SpaceId>,
    spaces: Seq<SpaceId>,
)
    requires
        closing_order(workspace, list, target, kept, spaces),
    ensures
        forall|space: SpaceId| #[trigger]
            spaces.contains(space) <==> space != target && !kept.contains(space) && exists|i: int|
                0 <= i < list.len() && workspace.views[#[trigger] list[i]].panes.contains_key(
                    space,
                ),
{
    let (attached, bodies) = choose|attached: Seq<u64>, bodies: Seq<u64>| #[trigger]
        orders(workspace, list, target, kept, spaces, attached, bodies);
    let numbers = space_numbers(spaces);
    assert(numbers.len() == spaces.len());
    assert(numbers.len() == attached.len() + bodies.len());
    assert forall|space: SpaceId| #[trigger] spaces.contains(space) <==> space != target
        && !kept.contains(space) && exists|i: int|
        0 <= i < list.len() && workspace.views[#[trigger] list[i]].panes.contains_key(space) by {
        assert(SpaceId(space.0) == space);
        if spaces.contains(space) {
            let k = choose|k: int| 0 <= k < spaces.len() && spaces[k] == space;
            assert(numbers[k] == space.0);
            assert(numbers[k] == (attached + bodies)[k]);
            if k < attached.len() {
                assert(attached[k] == space.0);
                assert(attached.contains(space.0));
            } else {
                assert((attached + bodies)[k] == bodies[k - attached.len()]);
                assert(bodies.contains(space.0));
            }
        }
        if space != target && !kept.contains(space) && exists|i: int|
            0 <= i < list.len() && workspace.views[#[trigger] list[i]].panes.contains_key(space) {
            let i = choose|i: int|
                0 <= i < list.len() && workspace.views[#[trigger] list[i]].panes.contains_key(
                    space,
                );
            let body = key_for(workspace.views[list[i]].panes, space) == Some(BODY_PANE@);
            assert(to_close(workspace, list, target, kept, body, space));
            if body {
                assert(bodies.contains(space.0));
                let k = choose|k: int| 0 <= k < bodies.len() && bodies[k] == space.0;
                assert((attached + bodies)[attached.len() + k] == bodies[k]);
                assert(numbers[attached.len() + k] == space.0);
                assert(spaces[attached.len() + k] == space);
            } else {
                assert(attached.contains(space.0));
                let k = choose|k: int| 0 <= k < attached.len() && attached[k] == space.0;
                assert(numbers[k] == space.0);
                assert(spaces[k] == space);
            }
        }
    }
}

/// To close a view is to have the builder close every space of it and of its parts, one after the
/// other and the one that was pointed at last, but for the one status bar, which stays for another
/// view. Spaces of other views are not closed.
pub proof fn law_close_asks_for_every_space(
    before: WorkspaceModel,
    after: WorkspaceModel,
    said: Seq<Exchange>,
    root: u64,
    target: SpaceId,
    neighbor: Option<SpaceId>,
    spaces: Seq<SpaceId>,
    scene: SceneModel,
)
    requires
        was_closed(before, after, said, root, target, neighbor, spaces, scene),
    ensures
        said.len() > spaces.len(),
        forall|k: int|
            0 <= k < spaces.len() ==> (#[trigger] said[k]).request == (SceneRequest::Close {
                space: spaces[k],
            }),
        said[spaces.len() as int].request == (SceneRequest::Close { space: target }),
        said[spaces.len() as int].answer == SceneAnswer::Closed(neighbor),
        forall|id: u64, space: SpaceId|
            whole_of(before, root).contains(id) && #[trigger]
                before.views[id].panes.contains_key(space) ==> space == target || spaces.contains(
                space,
            ) || before.global_status == Some(space),
        forall|k: int|
            #![trigger spaces[k]]
            0 <= k < spaces.len() ==> spaces[k] != target && exists|id: u64|
                #[trigger] whole_of(before, root).contains(id)
                    && before.views[id].panes.contains_key(spaces[k]),
        before.global_status matches Some(bar) ==> (view_at(before.nodes, bar) matches Some(shown)
            ==> (whole_of(before, root).contains(shown.0) ==> !spaces.contains(bar))),
{
    reveal(was_closed);
    lemma_requests(said);
    let list = whole_of(before, root);
    let kept = kept_global(before, list.to_set());
    lemma_closing_order(before, list, target, kept, spaces);
    if let Some(bar) = before.global_status {
        if let Some(shown) = view_at(before.nodes, bar) {
            if list.contains(shown.0) {
                assert(list.to_set().contains(shown.0));
                assert(kept[0] == bar);
            }
        }
    }
    let asked = close_requests(spaces.push(target));
    assert(requests_of(said).len() >= asked.len());
    assert forall|k: int| 0 <= k < spaces.len() implies (#[trigger] said[k]).request == (
    SceneRequest::Close { space: spaces[k] }) by {
        assert(requests_of(said)[k] == said[k].request);
        assert(asked[k] == (SceneRequest::Close { space: spaces[k] }));
    }
    assert(requests_of(said)[spaces.len() as int] == said[spaces.len() as int].request);
    assert(asked[spaces.len() as int] == (SceneRequest::Close { space: target }));
    assert forall|id: u64, space: SpaceId|
        list.contains(id) && #[trigger] before.views[id].panes.contains_key(space) implies space
        == target || spaces.contains(space) || before.global_status == Some(space) by {
        let i = choose|i: int| 0 <= i < list.len() && list[i] == id;
        assert(before.views[list[i]].panes.contains_key(space));
        if kept.contains(space) {
            assert(kept[0] == space);
        }
    }
    assert forall|k: int|
        #![trigger spaces[k]]
        0 <= k < spaces.len() implies spaces[k] != target && exists|id: u64|
        #[trigger] list.contains(id) && before.views[id].panes.contains_key(spaces[k]) by {
        assert(spaces.contains(spaces[k]));
        let i = choose|i: int|
            0 <= i < list.len() && before.views[#[trigger] list[i]].panes.contains_key(spaces[k]);
        assert(list.contains(list[i]));
    }
}

/// A focus that is closed goes to the neighbor that the builder gave, where that can have it.
pub proof fn law_closed_focus_goes_to_the_neighbor(
    before: WorkspaceModel,
    after: WorkspaceModel,
    said: Seq<Exchange>,
    root: u64,
    target: SpaceId,
    neighbor: SpaceId,
    spaces: Seq<SpaceId>,
    scene: SceneModel,
    view: ViewId,
)
    requires
        was_closed(before, after, said, root, target, Some(neighbor), spaces, scene),
        view_at(before.nodes, before.focused) == Some(view),
        whole_of(before, root).contains(view.0),
        focusable_at(scene.nodes, neighbor) == Some(true),
    ensures
        after.focused == neighbor,
{
    reveal(was_closed);
    assert(whole_of(before, root).to_set().contains(view.0));
    law_preferred_focus(scene.nodes, before.focused, neighbor);
}

/// To replace a view is to have the builder close every other space of it and of its parts, and
/// show the new view in the space that was pointed at, with the focusability that was given; a
/// status bar of its own goes to the new view and does not take the focus.
pub proof fn law_replace_asks_for_the_new_view(
    before: WorkspaceModel,
    after: WorkspaceModel,
    said: Seq<Exchange>,
    root: u64,
    target: SpaceId,
    view: ViewModel,
    focusable: bool,
    spaces: Seq<SpaceId>,
    scene: SceneModel,
)
    requires
        was_replaced(before, after, said, root, target, view, focusable, spaces, scene),
    ensures
        said.len() > spaces.len(),
        forall|k: int|
            0 <= k < spaces.len() ==> (#[trigger] said[k]).request == (SceneRequest::Close {
                space: spaces[k],
            }),
        said[spaces.len() as int].request == (SceneRequest::Replace {
            target,
            view: ViewId(before.next_view_id),
            focusable,
        }),
        view_at(before.nodes, target) matches Some(editor) ==> (before.placement is PerPane
            && before.status_by_editor.contains_key(editor.0) ==> said.len() > spaces.len() + 1
            && said[spaces.len() as int + 1].request == (SceneRequest::Replace {
            target: before.status_by_editor[editor.0],
            view: ViewId(before.next_view_id),
            focusable: false,
        })),
        forall|id: u64, space: SpaceId|
            whole_of(before, root).contains(id) && #[trigger]
                before.views[id].panes.contains_key(space) ==> space == target || spaces.contains(
                space,
            ) || before.global_status == Some(space) || own_status(before, target) == Some(space),
        !spaces.contains(target),
        own_status(before, target) matches Some(bar) ==> !spaces.contains(bar),
        before.global_status matches Some(bar) ==> (view_at(before.nodes, bar) matches Some(shown)
            ==> (whole_of(before, root).contains(shown.0) ==> !spaces.contains(bar))),
{
    reveal(was_replaced);
    lemma_requests(said);
    let list = whole_of(before, root);
    let kept = kept_for(before, root, target);
    lemma_closing_order(before, list, target, kept, spaces);
    if let Some(bar) = own_status(before, target) {
        assert(kept[0] == bar);
    }
    if let Some(bar) = before.global_status {
        if let Some(shown) = view_at(before.nodes, bar) {
            if list.contains(shown.0) {
                assert(list.to_set().contains(shown.0));
                assert(kept[kept.len() - 1] == bar);
            }
        }
    }
    assert forall|id: u64, space: SpaceId|
        list.contains(id) && #[trigger] before.views[id].panes.contains_key(space) implies space
        == target || spaces.contains(space) || before.global_status == Some(space) || own_status(
        before,
        target,
    ) == Some(space) by {
        let i = choose|i: int| 0 <= i < list.len() && list[i] == id;
        assert(before.views[list[i]].panes.contains_key(space));
        if kept.contains(space) {
            let k = choose|k: int| 0 <= k < kept.len() && kept[k] == space;
            assert(kept[k] == space);
        }
    }
    let asked = close_requests(spaces) + replace_requests(before, target, focusable);
    assert forall|k: int| 0 <= k < spaces.len() implies (#[trigger] said[k]).request == (
    SceneRequest::Close { space: spaces[k] }) by {
        assert(requests_of(said)[k] == said[k].request);
        assert(asked[k] == close_requests(spaces)[k]);
    }
    let n = spaces.len() as int;
    assert(requests_of(said)[n] == said[n].request);
    assert(asked[n] == replace_requests(before, target, focusable)[0]);
    if own_status(before, target) is Some {
        assert(requests_of(said)[n + 1] == said[n + 1].request);
        assert(asked[n + 1] == replace_requests(before, target, focusable)[1]);
    }
}

/// A focus that is replaced stays in the space where the new view comes, where that can have it.
pub proof fn law_replaced_focus_stays_in_its_space(
    before: WorkspaceModel,
    after: WorkspaceModel,
    said: Seq<Exchange>,
    root: u64,
    target: SpaceId,
    view: ViewModel,
    focusable: bool,
    spaces: Seq<SpaceId>,
    scene: SceneModel,
    shown: ViewId,
)
    requires
        was_replaced(before, after, said, root, target, view, focusable, spaces, scene),
        view_at(before.nodes, before.focused) == Some(shown),
    ensures
        whole_of(before, root).contains(shown.0) && focusable_at(scene.nodes, target) == Some(true)
            ==> after.focused == target,
        !whole_of(before, root).contains(shown.0) && focusable_at(scene.nodes, before.focused)
            == Some(true) ==> after.focused == before.focused,
{
    reveal(was_replaced);
    assert(whole_of(before, root).to_set().contains(shown.0) == whole_of(before, root).contains(
        shown.0,
    ));
    law_preferred_focus(scene.nodes, before.focused, target);
    law_preferred_focus(scene.nodes, before.focused, before.focused);
}

/// The main areas among leaves are those that their views use as such, in order.
pub proof fn law_main_areas_are_used_as_such(views: Map<u64, ViewModel>, list: Seq<Leaf>)
    ensures
        body_leaves(views, list) == list.filter(
            |leaf: Leaf| key_for(views[leaf.view.0].panes, leaf.space) == Some("body"@),
        ),
    decreases list.len(),
{
    reveal(Seq::filter);
    if list.len() > 0 {
        law_main_areas_are_used_as_such(views, list.drop_last());
    }
}

proof fn lemma_bars_given(
    workspace: WorkspaceModel,
    editors: Seq<Leaf>,
    spaces: Seq<SpaceId>,
    i: int,
)
    requires
        editors.len() == spaces.len(),
        0 <= i < editors.len(),
        forall|a: int, b: int|
            0 <= a < b < editors.len() ==> (#[trigger] editors[a]).view != (
            #[trigger] editors[b]).view,
    ensures
        with_bars(workspace, editors, spaces).status_by_editor.contains_key(editors[i].view.0),
        with_bars(workspace, editors, spaces).status_by_editor[editors[i].view.0] == spaces[i],
        key_for(
            with_bars(workspace, editors, spaces).views[editors[i].view.0].panes,
            spaces[i],
        ) == Some("builtin.status"@),
    decreases editors.len(),
{
    if i < editors.len() - 1 {
        let fewer = editors.drop_last();
        assert forall|a: int, b: int| 0 <= a < b < fewer.len() implies (
        #[trigger] fewer[a]).view != (#[trigger] fewer[b]).view by {
            assert(editors[a].view != editors[b].view);
        }
        lemma_bars_given(workspace, fewer, spaces.drop_last(), i);
        assert(editors[i].view != editors[editors.len() - 1].view);
        assert(editors[i].view.0 != editors.last().view.0);
    }
}

proof fn lemma_bars_alone(workspace: WorkspaceModel, editors: Seq<Leaf>, spaces: Seq<SpaceId>)
    ensures
        with_bars(workspace, editors, spaces).global_status == workspace.global_status,
        with_bars(workspace, editors, spaces).next_view_id == workspace.next_view_id,
        with_bars(workspace, editors, spaces).scene_revision == workspace.scene_revision,
    decreases editors.len(),
{
    if editors.len() > 0 {
        lemma_bars_alone(workspace, editors.drop_last(), spaces.drop_last());
    }
}

/// To give each view its status bar is to close the one that they share, and then to put one to
/// every main area, in order. Each view gets the bar that the builder gave for it.
pub proof fn law_spread_asks_for_a_bar_for_each(
    before: WorkspaceModel,
    after: WorkspaceModel,
    said: Seq<Exchange>,
    outcome: SpreadOutcome,
    i: int,
)
    requires
        was_spread(before, after, said, outcome),
        before.global_status is Some,
    ensures
        ({
            let editors = spread_editors(before, outcome);
            &&& said.len() == editors.len() + 1
            &&& said[0].request == (SceneRequest::Close { space: before.global_status->0 })
            &&& 0 <= i < editors.len() ==> said[i + 1].request == (SceneRequest::Wrap {
                target: editors[i].space,
                view: editors[i].view,
            })
            &&& 0 <= i < editors.len() ==> (said[i + 1].answer matches SceneAnswer::Pane(pane)
                && pane.status_space == outcome.spaces[i])
            &&& after.placement is PerPane
            &&& after.global_status is None
            &&& 0 <= i < editors.len() && (forall|a: int, b: int|
                0 <= a < b < editors.len() ==> (#[trigger] editors[a]).view != (
                #[trigger] editors[b]).view) ==> after.status_by_editor.contains_key(
                editors[i].view.0,
            ) && after.status_by_editor[editors[i].view.0] == outcome.spaces[i] && key_for(
                after.views[editors[i].view.0].panes,
                outcome.spaces[i],
            ) == Some("builtin.status"@)
        }),
{
    let editors = spread_editors(before, outcome);
    lemma_bars_alone(bar_closed(before, outcome.closed), editors, outcome.spaces);
    lemma_requests(said);
    assert(requests_of(said)[0] == said[0].request);
    if 0 <= i < editors.len() {
        assert(requests_of(said)[i + 1] == said[i + 1].request);
        assert(gave_bar(said[i + 1], outcome.spaces[i]));
        assert(requests_of(said)[i + 1] == wrap_requests(editors)[i]);
        if forall|a: int, b: int|
            0 <= a < b < editors.len() ==> (#[trigger] editors[a]).view != (
            #[trigger] editors[b]).view {
            lemma_bars_given(bar_closed(before, outcome.closed), editors, outcome.spaces, i);
        }
    }
}

/// To have one status bar again is to close every bar, and then to ask for one for the view that
/// has the focus, which then has the one that the builder gave.
pub proof fn law_gather_asks_for_one_bar(
    before: WorkspaceModel,
    after: WorkspaceModel,
    said: Seq<Exchange>,
    outcome: GatherOutcome,
    editor: ViewId,
)
    requires
        was_gathered(before, after, said, outcome),
        view_at(before.nodes, before.focused) == Some(editor),
    ensures
        said.len() == outcome.editors.len() + 1,
        forall|k: int|
            0 <= k < outcome.editors.len() ==> (#[trigger] said[k]).request == (
            SceneRequest::Close { space: before.status_by_editor[outcome.editors[k]] }),
        forall|id: u64| #[trigger]
            before.status_by_editor.contains_key(id) ==> outcome.editors.contains(id),
        said.last().request == (SceneRequest::Attach { view: editor }),
        said.last().answer == SceneAnswer::Attached(outcome.space),
        after.placement is Global,
        after.global_status == Some(outcome.space),
        after.status_by_editor.dom().is_empty(),
        key_for(after.views[editor.0].panes, outcome.space) == Some("builtin.status"@),
{
    lemma_requests(said);
    let bars = bars_of(before.status_by_editor, outcome.editors);
    assert forall|k: int| 0 <= k < outcome.editors.len() implies (#[trigger] said[k]).request == (
    SceneRequest::Close { space: before.status_by_editor[outcome.editors[k]] }) by {
        assert(requests_of(said)[k] == said[k].request);
        assert(close_requests(bars)[k] == (SceneRequest::Close { space: bars[k] }));
    }
    assert(requests_of(said).last() == said.last().request);
    let index = before.status_by_editor;
    let emptied = WorkspaceModel { status_by_editor: Map::empty(), ..before };
    lemma_no_index(emptied, index, outcome.editors);
}

proof fn lemma_no_index(workspace: WorkspaceModel, index: Map<u64, SpaceId>, editors: Seq<u64>)
    ensures
        without_bars(workspace, index, editors).status_by_editor == workspace.status_by_editor,
    decreases editors.len(),
{
    if editors.len() > 0 {
        lemma_no_index(workspace, index, editors.drop_last());
    }
}

/// A status bar that is shown is one line high, and one that is hidden has no height. It is the one
/// that all views share, or the one of the view in question.
pub proof fn law_status_bar_is_shown_or_hidden(workspace: WorkspaceModel, editor: ViewId)
    ensures
        status_sizing(true) == Sizing::Fixed(1),
        status_sizing(false) == Sizing::Fixed(0),
        workspace.placement is Global ==> chosen_status(workspace, Some(editor))
            == workspace.global_status && chosen_status(workspace, None)
            == workspace.global_status,
        workspace.placement is PerPane ==> chosen_status(workspace, None) is None,
        workspace.placement is PerPane && workspace.status_by_editor.contains_key(editor.0)
            ==> chosen_status(workspace, Some(editor)) == Some(
            workspace.status_by_editor[editor.0],
        ),
        workspace.placement is PerPane && !workspace.status_by_editor.contains_key(editor.0)
            ==> chosen_status(workspace, Some(editor)) is None,
{
}

/// For a pane the builder is asked for a space on the side that the pane asks for, next to the
/// anchor, that shows the view and does not take the focus, and then for the size of that space.
pub proof fn law_pane_is_asked_for_on_its_side(
    view: ViewId,
    anchor: SpaceId,
    side: ViewExtensionPaneSide,
    size: u16,
    said: Seq<Exchange>,
    space: SpaceId,
)
    requires
        pane_said(view, anchor, side, size, said, space),
    ensures
        said.len() == 2,
        said[0].request matches SceneRequest::Split {
            target: asked_target,
            view: asked_view,
            focusable,
            direction,
        } && {
            &&& asked_target == anchor
            &&& asked_view == view
            &&& !focusable
            &&& side is Left ==> direction is Left
            &&& side is Right ==> direction is Right
            &&& side is Above ==> direction is Up
            &&& side is Below ==> direction is Down
        },
        said[0].answer == SceneAnswer::Split(space),
        said[1].request == (SceneRequest::Size {
            target: space,
            sizing: Sizing::Fixed(size as i32),
        }),
{
    lemma_requests(said);
    assert(requests_of(said)[0] == said[0].request);
    assert(requests_of(said)[1] == said[1].request);
}

/// Only the main area and the status bar have keys that no extension can use.
pub proof fn law_reserved_keys(key: Seq<char>)
    ensures
        is_reserved(key) <==> key == "body"@ || key == "builtin.status"@,
{
}

/// A workspace starts with one view in the two spaces that the builder gave, its main area and the
/// one status bar, and the focus on its main area where that can have it.
pub proof fn law_workspace_opens_with_one_view(
    scene: SceneModel,
    editor_space: SpaceId,
    status_space: SpaceId,
    id: u64,
    view: ViewModel,
    next_view_id: u64,
)
    requires
        editor_space != status_space,
    ensures
        ({
            let workspace = opened(scene, editor_space, status_space, id, view, next_view_id);
            &&& workspace.views.dom() == set![id]
            &&& key_for(workspace.views[id].panes, editor_space) == Some("body"@)
            &&& key_for(workspace.views[id].panes, status_space) == Some("builtin.status"@)
            &&& workspace.views[id].bindings == view.bindings
            &&& workspace.nodes == scene.nodes
            &&& workspace.scene_revision == 0
            &&& workspace.next_view_id == next_view_id
            &&& workspace.placement is Global
            &&& workspace.global_status == Some(status_space)
            &&& workspace.status_by_editor.dom().is_empty()
            &&& focusable_at(scene.nodes, editor_space) == Some(true) ==> workspace.focused
                == editor_space
        }),
{
    reveal_strlit("body");
    reveal_strlit("builtin.status");
    assert(BODY_PANE@.len() == 4);
    assert(STATUS_PANE@.len() == 14);
    law_preferred_focus(scene.nodes, editor_space, editor_space);
    let workspace = opened(scene, editor_space, status_space, id, view, next_view_id);
    assert(workspace.views.dom() =~= set![id]);
}

proof fn lemma_children_refusal(
    views: Map<u64, ViewModel>,
    parent: ViewId,
    children: Seq<(ViewId, bool)>,
    i: int,
)
    requires
        0 <= i,
    ensures
        children_refusal(views, parent, children, i) is None <==> forall|k: int|
            #![trigger children[k]]
            i <= k < children.len() ==> {
                &&& children[k].0 != parent
                &&& views.contains_key(children[k].0.0)
                &&& views[children[k].0.0].parent is None
                &&& forall|j: int| 0 <= j < k ==> (#[trigger] children[j]).0 != children[k].0
            },
    decreases children.len() - i,
{
    if i < children.len() {
        lemma_children_refusal(views, parent, children, i + 1);
    }
}

/// Views can be made parts of another exactly where that is there and has no parts, and they are
/// there, differ from it and from each other, and are part of nothing.
pub proof fn law_parts_must_be_free(
    views: Map<u64, ViewModel>,
    parent: ViewId,
    children: Seq<(ViewId, bool)>,
)
    ensures
        compose_refusal(views, parent, children) is None <==> {
            &&& views.contains_key(parent.0)
            &&& views[parent.0].children.len() == 0
            &&& forall|k: int|
                #![trigger children[k]]
                0 <= k < children.len() ==> {
                    &&& children[k].0 != parent
                    &&& views.contains_key(children[k].0.0)
                    &&& views[children[k].0.0].parent is None
                    &&& forall|j: int| 0 <= j < k ==> (#[trigger] children[j]).0 != children[k].0
                }
        },
{
    lemma_children_refusal(views, parent, children, 0);
}

/// Views that have been made parts of another are its parts, in order, each can be switched or not
/// as was asked for, and nothing else of them or of any other view changes.
pub proof fn law_parts_are_composed(
    views: Map<u64, ViewModel>,
    parent: ViewId,
    children: Seq<(ViewId, bool)>,
)
    requires
        compose_refusal(views, parent, children) is None,
    ensures
        ({
            let after = composed(views, parent, children);
            &&& after.dom() == views.dom()
            &&& after[parent.0].children == children.map_values(|child: (ViewId, bool)| child.0)
            &&& after[parent.0] == (ViewModel {
                children: after[parent.0].children,
                ..views[parent.0]
            })
            &&& forall|k: int|
                #![trigger children[k]]
                0 <= k < children.len() ==> after[children[k].0.0] == (ViewModel {
                    parent: Some(parent),
                    switchable: children[k].1,
                    ..views[children[k].0.0]
                })
            &&& forall|id: u64|
                #![trigger after[id]]
                id != parent.0 && (forall|k: int|
                    0 <= k < children.len() ==> (#[trigger] children[k]).0.0 != id)
                    ==> after[id] == views[id]
        }),
    decreases children.len(),
{
    law_parts_must_be_free(views, parent, children);
    if children.len() > 0 {
        let fewer = children.drop_last();
        assert forall|k: int|
            #![trigger fewer[k]]
            0 <= k < fewer.len() implies {
            &&& fewer[k].0 != parent
            &&& views.contains_key(fewer[k].0.0)
            &&& views[fewer[k].0.0].parent is None
            &&& forall|j: int| 0 <= j < k ==> (#[trigger] fewer[j]).0 != fewer[k].0
        } by {
            assert(fewer[k] == children[k]);
            assert forall|j: int| 0 <= j < k implies (#[trigger] fewer[j]).0 != fewer[k].0 by {
                assert(fewer[j] == children[j]);
            }
        }
        law_parts_must_be_free(views, parent, fewer);
        law_parts_are_composed(views, parent, fewer);
        let before = composed(views, parent, fewer);
        let after = composed(views, parent, children);
        let (child, switchable) = children.last();
        let n = children.len() - 1;
        assert(children[n].0 == child);
        assert forall|k: int| 0 <= k < fewer.len() implies (#[trigger] children[k]).0.0
            != child.0 by {
            assert(children[k].0 != children[n].0);
        }
        assert(before[child.0] == views[child.0]) by {
            assert forall|k: int| 0 <= k < fewer.len() implies (#[trigger] fewer[k]).0.0
                != child.0 by {
                assert(fewer[k] == children[k]);
            }
        }
        let names = fewer.map_values(|child: (ViewId, bool)| child.0);
        assert(!names.contains(child)) by {
            if names.contains(child) {
                let k = choose|k: int| 0 <= k < names.len() && names[k] == child;
                assert(fewer[k] == children[k]);
                assert(children[k].0 != children[n].0);
            }
        }
        assert(names.push(child) =~= children.map_values(|child: (ViewId, bool)| child.0));
        assert(after.dom() =~= views.dom());
        assert forall|k: int|
            #![trigger children[k]]
            0 <= k < children.len() implies after[children[k].0.0] == (ViewModel {
            parent: Some(parent),
            switchable: children[k].1,
            ..views[children[k].0.0]
        }) by {
            assert(children[k].0 != parent);
            if k < n {
                assert(fewer[k] == children[k]);
            }
        }
        assert forall|id: u64|
            #![trigger after[id]]
            id != parent.0 && (forall|k: int|
                0 <= k < children.len() ==> (#[trigger] children[k]).0.0 != id) implies after[id]
            == views[id] by {
            assert(children[n].0.0 != id);
            assert forall|k: int| 0 <= k < fewer.len() implies (#[trigger] fewer[k]).0.0
                != id by {
                assert(fewer[k] == children[k]);
            }
            assert(before[id] == views[id]);
        }
    } else {
        assert(views[parent.0].children =~= children.map_values(
            |child: (ViewId, bool)| child.0,
        ));
    }
}

/// A compound view comes in the place of another: its first part in the space that was pointed at,
/// its second next to that on the side that was given, and both are its parts, in that order, and
/// cannot be switched by themselves.
pub proof fn law_compound_has_its_parts(
    before: WorkspaceModel,
    after: WorkspaceModel,
    said: Seq<Exchange>,
    target: SpaceId,
    parent: ViewModel,
    first: ViewModel,
    second: ViewModel,
    direction: SplitDirection,
    steps: CompoundSteps,
)
    requires
        was_compounded(
            before,
            after,
            said,
            target,
            parent,
            first,
            second,
            direction,
            steps,
        ),
        before.scene_revision < u64::MAX,
        steps.split.next_view_id < u64::MAX,
    ensures
        ({
            let id = ViewId(steps.split.next_view_id);
            let one = ViewId(before.next_view_id);
            let two = ViewId(steps.replaced.next_view_id);
            &&& after.views[id.0].children == seq![one, two]
            &&& after.views[one.0].parent == Some(id) && !after.views[one.0].switchable
            &&& after.views[two.0].parent == Some(id) && !after.views[two.0].switchable
            &&& after.views[id.0].bindings == parent.bindings
            &&& after.views[id.0].definition == parent.definition
            &&& after.scene_revision == before.scene_revision + 1
            &&& said == steps.first + steps.second
            &&& steps.second.len() > 0
            &&& steps.second[0].request matches SceneRequest::Split {
                target: asked_target,
                direction: asked_direction,
                view: asked_view,
                ..
            } ==> asked_target == target && asked_direction == direction && asked_view == two
            &&& steps.second[0].request matches SceneRequest::SplitPane {
                direction: asked_direction,
                ..
            } ==> asked_direction == direction
        }),
{
    let id = ViewId(steps.split.next_view_id);
    let children = compound_children(
        before.next_view_id,
        steps.replaced.next_view_id,
    );
    let with_parent = added(steps.split, parent);
    law_parts_are_composed(with_parent.views, id, children);
    law_parts_must_be_free(with_parent.views, id, children);
    assert(children[0] == (ViewId(before.next_view_id), false));
    assert(children[1] == (ViewId(steps.replaced.next_view_id), false));
    assert(children.map_values(|child: (ViewId, bool)| child.0) =~= seq![
        ViewId(before.next_view_id),
        ViewId(steps.replaced.next_view_id),
    ]);
    law_split_asks_for_what_was_given(
        steps.replaced,
        steps.split,
        steps.second,
        target,
        second,
        true,
        direction,
        false,
        steps.outcome,
    );
}

proof fn lemma_broken_link(
    parent: ViewModel,
    child: ViewModel,
    links: Seq<LinkModel>,
    i: int,
)
    requires
        0 <= i,
    ensures
        broken_link(parent, child, links, i) is None <==> forall|k: int|
            i <= k < links.len() ==> content_of(
                child.bindings,
                (#[trigger] links[k]).child,
            ) == content_of(parent.bindings, links[k].parent),
    decreases links.len() - i,
{
    if i < links.len() {
        lemma_broken_link(parent, child, links, i + 1);
    }
}

/// A child of a compound view is as it is declared: it is there, of the kind that is declared,
/// part of the compound and not to be switched by itself, and its roles have the contents of those
/// that they are linked to.
pub open spec fn is_declared_child(
    views: Map<u64, ViewModel>,
    parent: ViewId,
    child: ViewId,
    declared: ChildModel,
) -> bool {
    &&& views.contains_key(child.0)
    &&& views[child.0].definition == declared.definition
    &&& !views[child.0].switchable
    &&& views[child.0].parent == Some(parent)
    &&& forall|k: int|
        0 <= k < declared.links.len() ==> content_of(
            views[child.0].bindings,
            (#[trigger] declared.links[k]).child,
        ) == content_of(views[parent.0].bindings, declared.links[k].parent)
}

/// A compound view agrees with its definition exactly where it is there, of that definition and to
/// be switched, has two parts, and each of them is as it is declared.
pub proof fn law_compound_agrees_with_its_definition(
    views: Map<u64, ViewModel>,
    parent: ViewId,
    compound: CompoundModel,
)
    ensures
        compound_fault(views, parent, compound) is None <==> {
            &&& views.contains_key(parent.0)
            &&& views[parent.0].definition == compound.definition.id
            &&& views[parent.0].switchable
            &&& views[parent.0].children.len() == 2
            &&& is_declared_child(views, parent, views[parent.0].children[0], compound.first)
            &&& is_declared_child(views, parent, views[parent.0].children[1], compound.second)
        },
{
    if views.contains_key(parent.0) && views[parent.0].children.len() == 2 {
        let one = views[parent.0].children[0];
        let two = views[parent.0].children[1];
        lemma_broken_link(views[parent.0], views[one.0], compound.first.links, 0);
        lemma_broken_link(views[parent.0], views[two.0], compound.second.links, 0);
    }
}

/// A space can be split, closed or replaced exactly where it is the main area of a view.
pub proof fn law_only_main_areas_are_changed(workspace: WorkspaceModel, target: SpaceId)
    ensures
        view_at(workspace.nodes, target) is None ==> body_refusal(workspace, target) == Some(
            LayoutError::Scene(SceneError::ExpectedContentLeaf(target)),
        ),
        view_at(workspace.nodes, target) matches Some(view) ==> {
            &&& key_for(workspace.views[view.0].panes, target) == Some("body"@) ==> body_refusal(
                workspace,
                target,
            ) is None
            &&& key_for(workspace.views[view.0].panes, target) != Some("body"@) ==> body_refusal(
                workspace,
                target,
            ) == Some(LayoutError::StatusBarSpace(target))
        },
        body_refusal(workspace, target) is Some ==> subtree_refusal(workspace, target)
            == body_refusal(workspace, target),
        body_refusal(workspace, target) is None ==> (subtree_refusal(workspace, target) is None
            <==> (view_at(workspace.nodes, target) matches Some(view) && switch_target(
            workspace.views,
            view.0,
        ) == Some(subtree_root(workspace, target)))),
{
}

/// What is switched in the place of a view is the view itself where it can be switched, or else
/// what is switched in the place of what it is part of.
pub proof fn law_nearest_switchable_is_switched(
    views: Map<u64, ViewModel>,
    view: u64,
    steps: nat,
)
    requires
        steps > 0,
    ensures
        views.contains_key(view) && views[view].switchable ==> switchable_above(views, view, steps)
            == Some(view),
        views.contains_key(view) && !views[view].switchable ==> {
            &&& views[view].parent matches Some(parent) ==> switchable_above(views, view, steps)
                == switchable_above(views, parent.0, (steps - 1) as nat)
            &&& views[view].parent is None ==> switchable_above(views, view, steps) is None
        },
        switchable_above(views, view, steps) matches Some(target) ==> under(views, view, target)
            && views[target].switchable,
    decreases steps,
{
    if views.contains_key(view) {
        if views[view].switchable {
            assert(under_within(views, view, view, 1));
        } else if let Some(parent) = views[view].parent {
            if steps > 1 {
                law_nearest_switchable_is_switched(views, parent.0, (steps - 1) as nat);
                if let Some(target) = switchable_above(views, parent.0, (steps - 1) as nat) {
                    let k = choose|k: nat| #[trigger] under_within(views, parent.0, target, k);
                    assert(under_within(views, view, target, (k + 1) as nat));
                }
            }
        }
    }
}

/// A content needs another view in its place exactly where a view is on it, and every leaf that can
/// have the focus would go with it.
pub proof fn law_replacement_is_needed_for_the_last_focus(
    workspace: WorkspaceModel,
    content: ContentId,
)
    ensures
        needs_replacement(workspace, content) <==> {
            &&& exists|root: u64| #[trigger] is_removal_root(workspace, content, root)
            &&& forall|i: int|
                0 <= i < leaves(workspace.nodes).len() && focusable_at(
                    workspace.nodes,
                    (#[trigger] leaves(workspace.nodes)[i]).space,
                ) == Some(true) ==> goes_with(
                    workspace,
                    content,
                    leaves(workspace.nodes)[i].view.0,
                )
        },
{
    assert forall|view: u64| #[trigger]
        removed_with(workspace, content).contains(view) == goes_with(
            workspace,
            content,
            view,
        ) by {}
}

proof fn lemma_first_reference(view: ViewModel, content: ContentId, i: int)
    requires
        0 <= i,
    ensures
        match first_reference(view, content, i) {
            Some(role) => exists|k: int|
                i <= k < view.bindings.len() && (#[trigger] view.bindings[k]).content == content
                    && view.bindings[k].role == role && forall|j: int|
                    i <= j < k ==> (#[trigger] view.bindings[j]).content != content,
            None => forall|k: int|
                i <= k < view.bindings.len() ==> (#[trigger] view.bindings[k]).content != content,
        },
    decreases view.bindings.len() - i,
{
    if i < view.bindings.len() {
        lemma_first_reference(view, content, i + 1);
        if view.bindings[i].content != content {
            if let Some(role) = first_reference(view, content, i + 1) {
                let k = choose|k: int|
                    i + 1 <= k < view.bindings.len() && (#[trigger] view.bindings[k]).content
                        == content && view.bindings[k].role == role && forall|j: int|
                        i + 1 <= j < k ==> (#[trigger] view.bindings[j]).content != content;
                assert forall|j: int| i <= j < k implies (#[trigger] view.bindings[j]).content
                    != content by {}
                assert(view.bindings[k].role == role);
            }
        } else {
            assert(view.bindings[i].role == first_reference(view, content, i)->0);
        }
    }
}

/// A view keeps a content from being closed exactly where it does not go with it and has a role
/// that is bound to it.
pub proof fn law_references_that_stay_block(
    workspace: WorkspaceModel,
    content: ContentId,
    view: u64,
)
    requires
        workspace.views.contains_key(view),
    ensures
        blocks(workspace, content, view) <==> !goes_with(workspace, content, view) && exists|k: int|
            0 <= k < workspace.views[view].bindings.len() && (
            #[trigger] workspace.views[view].bindings[k]).content == content,
        first_reference(workspace.views[view], content, 0) matches Some(role) ==> exists|k: int|
            0 <= k < workspace.views[view].bindings.len() && (
            #[trigger] workspace.views[view].bindings[k]).content == content
                && workspace.views[view].bindings[k].role == role,
{
    lemma_first_reference(workspace.views[view], content, 0);
    if let Some(role) = first_reference(workspace.views[view], content, 0) {
        let k = choose|k: int|
            0 <= k < workspace.views[view].bindings.len() && (
            #[trigger] workspace.views[view].bindings[k]).content == content
                && workspace.views[view].bindings[k].role == role;
        assert(workspace.views[view].bindings[k].content == content);
    }
}

/// The status bar of a view is the one that all share, or its own, and tells of the view that is
/// shown there and of the document of that.
pub proof fn law_status_bar_tells_of_its_view(workspace: WorkspaceModel, editor: u64)
    ensures
        status_bar(workspace, editor) matches Some(bar) ==> {
            &&& workspace.views.contains_key(editor)
            &&& workspace.placement is Global ==> workspace.global_status == Some(bar.space)
            &&& workspace.placement is PerPane ==> workspace.status_by_editor.contains_key(editor)
                && workspace.status_by_editor[editor] == bar.space
            &&& view_at(workspace.nodes, bar.space) == Some(bar.target_view)
            &&& workspace.views.contains_key(bar.target_view.0)
            &&& document_of(workspace.views[bar.target_view.0]) == Some(bar.content)
        },
{
}

/// A view is reached through its main area; one that has none through the focus, where that is on
/// the main area of one of its parts, or else through the first main area among its parts.
pub proof fn law_view_is_reached_through_a_main_area(
    workspace: WorkspaceModel,
    view: u64,
    list: Seq<u64>,
)
    requires
        subtree(workspace.views, view) == Ok::<
            Seq<u64>,
            SubtreeFault,
        >(list),
        workspace.views.contains_key(view),
        view_at(workspace.nodes, workspace.focused) is Some,
    ensures
        space_for(workspace.views[view].panes, "body"@) matches Some(space) ==> replacement_space(
            workspace,
            view,
        ) == Some(space),
        space_for(workspace.views[view].panes, "body"@) is None ==> {
            let focused = view_at(workspace.nodes, workspace.focused)->0;
            &&& list.contains(focused.0) && key_for(
                workspace.views[focused.0].panes,
                workspace.focused,
            ) == Some("body"@) ==> replacement_space(workspace, view) == Some(workspace.focused)
            &&& !(list.contains(focused.0) && key_for(
                workspace.views[focused.0].panes,
                workspace.focused,
            ) == Some("body"@)) ==> match replacement_space(workspace, view) {
                Some(space) => exists|i: int|
                    0 <= i < list.len() && body_space(workspace, #[trigger] list[i]) == Some(space)
                        && forall|j: int|
                        0 <= j < i ==> body_space(workspace, #[trigger] list[j]) is None,
                None => forall|i: int|
                    0 <= i < list.len() ==> body_space(workspace, #[trigger] list[i]) is None,
            }
        },
{
    lemma_first_body(workspace, list, 0);
}

proof fn lemma_first_body(workspace: WorkspaceModel, list: Seq<u64>, k: int)
    requires
        0 <= k,
    ensures
        match first_body(workspace, list, k) {
            Some(space) => exists|i: int|
                k <= i < list.len() && body_space(workspace, #[trigger] list[i]) == Some(space)
                    && forall|j: int|
                    k <= j < i ==> body_space(workspace, #[trigger] list[j]) is None,
            None => forall|i: int|
                k <= i < list.len() ==> body_space(workspace, #[trigger] list[i]) is None,
        },
    decreases list.len() - k,
{
    if k < list.len() {
        lemma_first_body(workspace, list, k + 1);
        if body_space(workspace, list[k]) is None {
            if let Some(space) = first_body(workspace, list, k + 1) {
                let i = choose|i: int|
                    k + 1 <= i < list.len() && body_space(workspace, #[trigger] list[i]) == Some(
                        space,
                    ) && forall|j: int|
                        k + 1 <= j < i ==> body_space(workspace, #[trigger] list[j]) is None;
                assert forall|j: int| k <= j < i implies body_space(
                    workspace,
                    #[trigger] list[j],
                ) is None by {}
                assert(body_space(workspace, list[i]) == Some(space));
            }
        } else {
            assert(body_space(workspace, list[k]) == first_body(workspace, list, k));
        }
    }
}

/// To close the one status bar is to take it from the view that it was with; nothing else of the
/// views changes, and no bar is kept for any view.
pub proof fn law_closed_bar_is_with_no_view(
    workspace: WorkspaceModel,
    scene: SceneModel,
    bar: SpaceId,
    editor: ViewId,
)
    requires
        workspace.global_status == Some(bar),
        view_at(workspace.nodes, bar) == Some(editor),
        workspace.views.contains_key(editor.0),
    ensures
        ({
            let after = bar_closed(workspace, scene);
            &&& after.views.dom() == workspace.views.dom()
            &&& after.views[editor.0] == (ViewModel {
                panes: workspace.views[editor.0].panes.remove(bar),
                ..workspace.views[editor.0]
            })
            &&& forall|other: u64|
                #![trigger after.views[other]]
                other != editor.0 ==> after.views[other] == workspace.views[other]
            &&& after.global_status is None
            &&& after.status_by_editor.dom().is_empty()
            &&& after.nodes == scene.nodes
            &&& after.focused == workspace.focused
        }),
{
    assert(bar_closed(workspace, scene).views.dom() =~= workspace.views.dom());
}

/// The views that get a status bar each are those of the main areas that are left when the one bar
/// is closed, in their order.
pub proof fn law_every_main_area_gets_a_bar(before: WorkspaceModel, outcome: SpreadOutcome)
    ensures
        spread_editors(before, outcome) == leaves(outcome.closed.nodes).filter(
            |leaf: Leaf|
                key_for(
                    bar_closed(before, outcome.closed).views[leaf.view.0].panes,
                    leaf.space,
                ) == Some("body"@),
        ),
{
    law_main_areas_are_used_as_such(
        bar_closed(before, outcome.closed).views,
        leaves(outcome.closed.nodes),
    );
}

proof fn lemma_bars_taken(
    workspace: WorkspaceModel,
    index: Map<u64, SpaceId>,
    editors: Seq<u64>,
    editor: u64,
)
    requires
        workspace.views.contains_key(editor),
    ensures
        ({
            let after = without_bars(workspace, index, editors);
            &&& after.views.dom() == workspace.views.dom()
            &&& editors.contains(editor) ==> after.views[editor].panes
                == workspace.views[editor].panes.remove(index[editor])
            &&& !editors.contains(editor) ==> after.views[editor] == workspace.views[editor]
        }),
    decreases editors.len(),
{
    if editors.len() > 0 {
        let fewer = editors.drop_last();
        lemma_bars_taken(workspace, index, fewer, editor);
        assert(editors =~= fewer.push(editors.last()));
        assert(editors.last() == editor ==> editors.contains(editor)) by {
            assert(editors[editors.len() - 1] == editors.last());
        }
        if editors.contains(editor) && editors.last() != editor {
            let k = choose|k: int| 0 <= k < editors.len() && editors[k] == editor;
            assert(fewer[k] == editor);
        }
        if fewer.contains(editor) {
            let k = choose|k: int| 0 <= k < fewer.len() && fewer[k] == editor;
            assert(editors[k] == editor);
            assert(workspace.views[editor].panes.remove(index[editor]).remove(index[editor])
                =~= workspace.views[editor].panes.remove(index[editor]));
        }
        let rest = without_bars(workspace, index, fewer);
        let after = without_bars(workspace, index, editors);
        assert(after.views.dom() =~= rest.views.dom());
    }
}

/// When the one status bar comes back, every view loses the bar that it had for itself.
pub proof fn law_gathered_bars_are_with_no_view(
    before: WorkspaceModel,
    after: WorkspaceModel,
    said: Seq<Exchange>,
    outcome: GatherOutcome,
    editor: u64,
)
    requires
        was_gathered(before, after, said, outcome),
        before.status_by_editor.contains_key(editor),
        before.views.contains_key(editor),
        before.status_by_editor[editor] != outcome.space,
    ensures
        !after.views[editor].panes.contains_key(before.status_by_editor[editor]),
{
    let emptied = WorkspaceModel { status_by_editor: Map::empty(), ..before };
    assert(outcome.editors.contains(editor));
    lemma_bars_taken(emptied, before.status_by_editor, outcome.editors, editor);
}

/// The focus stays where it is when status bars are placed anew, where it still can.
pub proof fn law_placing_bars_leaves_the_focus(
    before: WorkspaceModel,
    spread_after: WorkspaceModel,
    spread_said: Seq<Exchange>,
    spread_outcome: SpreadOutcome,
    gathered_after: WorkspaceModel,
    gathered_said: Seq<Exchange>,
    gathered_outcome: GatherOutcome,
)
    ensures
        was_spread(before, spread_after, spread_said, spread_outcome) && focusable_at(
            spread_outcome.scene.nodes,
            before.focused,
        ) == Some(true) ==> spread_after.focused == before.focused && spread_after.nodes
            == spread_outcome.scene.nodes,
        was_gathered(before, gathered_after, gathered_said, gathered_outcome) && focusable_at(
            gathered_outcome.scene.nodes,
            before.focused,
        ) == Some(true) ==> gathered_after.focused == before.focused && gathered_after.nodes
            == gathered_outcome.scene.nodes,
{
    law_preferred_focus(
        spread_outcome.scene.nodes,
        spread(before, spread_outcome).focused,
        before.focused,
    );
    law_preferred_focus(
        gathered_outcome.scene.nodes,
        gathered(before, gathered_outcome).focused,
        before.focused,
    );
}

} // verus!
