//! What changes of the layout do, and what they leave alone.

use crate::protocol::{SpaceId, ViewId};
use crate::view::instance::{with_pane, without_pane, ViewModel};
use crate::view::layout::{LayoutError, StatusBarPlacement};
use crate::view::panes::{lemma_space_for, uses, BODY_PANE, STATUS_PANE};
use crate::view::scene::{
    first_focusable, focus_after, focusable_at, index_of, leaves, nodes_below, view_at, Exchange,
    Leaf, SceneModel, SceneNode, SplitDirection,
};
use crate::view::soundness::{
    is_sole_status, law_spaces_have_one_view, law_status_space_shows_its_view, scene_of, status_of,
    view_agrees, views_ready, workspace_sound, WorkspaceModel,
};
use crate::view::workspace::changes::{settled, was_split, SplitOutcome};
use crate::view::workspace::closing::{
    own_status, part_of, replaced_draft, replacing_view, was_closed, was_replaced, whole_of,
};
use crate::view::workspace::extension_panes::{
    among, is_keyed, panes_removed, released, with_extension_pane,
};
use crate::view::workspace::queries::{
    body_refusal, body_space, close_refusal, lemma_shown_view_is_there, subtree_refusal,
};
use crate::view::workspace::status::{
    bar_closed, spread_editors, was_gathered, was_placed, was_spread, with_bars, without_bars,
    GatherOutcome, SpreadOutcome,
};
use crate::view::workspace::steps::refocused;
use vstd::prelude::*;
use vstd::view::View as _;

verus! {

/// Two views that differ at most in where they are shown and in their family.
pub open spec fn same_document(a: ViewModel, b: ViewModel) -> bool {
    b == (ViewModel { panes: b.panes, parent: b.parent, children: b.children, ..a })
}

/// Two workspaces with the same views, each about the same.
pub open spec fn same_documents(a: WorkspaceModel, b: WorkspaceModel) -> bool {
    &&& b.views.dom() == a.views.dom()
    &&& forall|id: u64| #[trigger]
        a.views.contains_key(id) ==> same_document(a.views[id], b.views[id])
    &&& b.next_view_id == a.next_view_id
}

proof fn lemma_keys_apart()
    ensures
        BODY_PANE@ != STATUS_PANE@,
{
    reveal_strlit("body");
    reveal_strlit("builtin.status");
    assert(BODY_PANE@.len() == 4);
    assert(STATUS_PANE@.len() == 14);
}

/// The one status bar is not the main area of a view.
proof fn lemma_status_is_no_body(workspace: WorkspaceModel, target: SpaceId)
    requires
        views_ready(workspace),
        workspace_sound(workspace),
        body_refusal(workspace, target) is None,
    ensures
        workspace.placement is Global ==> workspace.global_status != Some(target),
        own_status(workspace, target) != Some(target),
{
    lemma_keys_apart();
    let view = view_at(workspace.nodes, target)->0;
    lemma_shown_view_is_there(workspace, target, view);
    if workspace.placement is Global && workspace.global_status == Some(target) {
        let id = choose|id: u64| #[trigger] is_sole_status(workspace.views, target, id);
        let panes = workspace.views[id].panes;
        assert(uses(panes, STATUS_PANE@, status_of(workspace.views[id])->0));
        law_spaces_have_one_view(workspace, id, view.0, target);
    }
    if own_status(workspace, target) == Some(target) {
        let panes = workspace.views[view.0].panes;
        assert(status_of(workspace.views[view.0]) == Some(target));
        assert(uses(panes, STATUS_PANE@, target));
    }
}

/// The one status bar, where there is one, belongs to the view that has the focus.
pub open spec fn status_follows_focus(workspace: WorkspaceModel) -> bool {
    workspace.placement is Global ==> (workspace.global_status matches Some(space) && view_at(
        workspace.nodes,
        space,
    ) == view_at(workspace.nodes, workspace.focused))
}

/// Whatever changes the layout leaves the one status bar with the view that has the focus, where
/// a builder that is said to show it there leaves the focus alone.
pub proof fn law_status_bar_follows_the_focus(
    draft: WorkspaceModel,
    preferred: Option<SpaceId>,
    after: WorkspaceModel,
)
    requires
        after == settled(draft, preferred, scene_of(after)),
        focus_after(draft.nodes, draft.focused, preferred) is Some,
        view_at(after.nodes, after.focused) == view_at(draft.nodes, after.focused),
        views_ready(after),
        workspace_sound(after),
    ensures
        status_follows_focus(after),
{
    if after.placement is Global {
        let space = after.global_status->0;
        let id = choose|id: u64| #[trigger] is_sole_status(after.views, space, id);
        law_status_space_shows_its_view(after, id, space);
        let moved = refocused(draft, preferred);
        if let (Some(previous), Some(editor)) = (
            view_at(moved.nodes, space),
            view_at(moved.nodes, moved.focused),
        ) {
            if previous != editor {
                assert(after.views[editor.0].panes.contains_key(space));
                assert(after.views.contains_key(editor.0));
                assert(view_agrees(after, editor.0));
            }
        }
    }
}

/// A view that comes in the place of another is shown where that one was.
pub proof fn law_replacement_is_shown_in_place(
    before: WorkspaceModel,
    after: WorkspaceModel,
    said: Seq<Exchange>,
    root: u64,
    target: SpaceId,
    view: ViewModel,
    focusable: bool,
    spaces: Seq<SpaceId>,
    scene: SceneModel,
)
    requires
        views_ready(before),
        workspace_sound(before),
        views_ready(after),
        workspace_sound(after),
        body_refusal(before, target) is None,
        was_replaced(before, after, said, root, target, view, focusable, spaces, scene),
    ensures
        view_at(after.nodes, target) == Some(ViewId(before.next_view_id)),
        body_space(after, before.next_view_id) == Some(target),
        body_refusal(after, target) is None,
{
    reveal(was_replaced);
    lemma_keys_apart();
    lemma_status_is_no_body(before, target);
    let id = before.next_view_id;
    let draft = replaced_draft(before, root, target, view, scene);
    let shown = replacing_view(before, root, target, view);
    assert(draft.views[id] == shown);
    assert(uses(shown.panes, BODY_PANE@, target));
    assert(draft.global_status == before.global_status);
    assert(draft.placement == before.placement);
    assert(after.views.dom().contains(id));
    assert(uses(after.views[id].panes, BODY_PANE@, target));
    assert(view_agrees(after, id));
    lemma_space_for(after.views[id].panes, BODY_PANE@, target);
}

/// A view that is added next to another is shown in the space that was made for it.
pub proof fn law_split_view_is_shown(
    before: WorkspaceModel,
    after: WorkspaceModel,
    said: Seq<Exchange>,
    target: SpaceId,
    view: ViewModel,
    focusable: bool,
    direction: SplitDirection,
    focus_new: bool,
    outcome: SplitOutcome,
)
    requires
        workspace_sound(after),
        was_split(
            before,
            after,
            said,
            target,
            view,
            focusable,
            direction,
            focus_new,
            outcome,
        ),
    ensures
        after.views.contains_key(before.next_view_id),
        forall|space: SpaceId| #[trigger]
            after.views[before.next_view_id].panes.contains_key(space) ==> view_at(
                after.nodes,
                space,
            ) == Some(ViewId(before.next_view_id)),
{
    assert(after.views.dom().contains(before.next_view_id));
    assert(view_agrees(after, before.next_view_id));
}

/// Adding a view leaves what the others are about alone.
pub proof fn law_split_keeps_documents(
    before: WorkspaceModel,
    after: WorkspaceModel,
    said: Seq<Exchange>,
    target: SpaceId,
    view: ViewModel,
    focusable: bool,
    direction: SplitDirection,
    focus_new: bool,
    outcome: SplitOutcome,
    other: u64,
)
    requires
        views_ready(before),
        was_split(
            before,
            after,
            said,
            target,
            view,
            focusable,
            direction,
            focus_new,
            outcome,
        ),
        before.views.contains_key(other),
    ensures
        after.views.contains_key(other),
        same_document(before.views[other], after.views[other]),
        same_document(view, after.views[before.next_view_id]),
{
    assert(after.views.dom().contains(other));
}

proof fn lemma_bars_keep_documents(
    workspace: WorkspaceModel,
    editors: Seq<Leaf>,
    spaces: Seq<SpaceId>,
)
    requires
        editors.len() == spaces.len(),
        forall|i: int|
            0 <= i < editors.len() ==> workspace.views.contains_key(
                (#[trigger] editors[i]).view.0,
            ),
    ensures
        same_documents(workspace, with_bars(workspace, editors, spaces)),
    decreases editors.len(),
{
    if editors.len() > 0 {
        let fewer = editors.drop_last();
        assert forall|i: int| 0 <= i < fewer.len() implies workspace.views.contains_key(
            (#[trigger] fewer[i]).view.0,
        ) by {
            assert(fewer[i] == editors[i]);
        }
        lemma_bars_keep_documents(workspace, fewer, spaces.drop_last());
        assert(editors.last() == editors[editors.len() - 1]);
        let rest = with_bars(workspace, fewer, spaces.drop_last());
        assert(rest.views.dom().contains(editors.last().view.0));
        assert(with_bars(workspace, editors, spaces).views.dom() =~= workspace.views.dom());
    }
}

proof fn lemma_no_bars_keep_documents(
    workspace: WorkspaceModel,
    index: Map<u64, SpaceId>,
    editors: Seq<u64>,
)
    ensures
        same_documents(workspace, without_bars(workspace, index, editors)),
    decreases editors.len(),
{
    if editors.len() > 0 {
        lemma_no_bars_keep_documents(workspace, index, editors.drop_last());
        assert(without_bars(workspace, index, editors).views.dom() =~= workspace.views.dom());
    }
}

/// Showing status bars elsewhere leaves what the views are about alone, and neither adds a view
/// nor takes one out.
pub proof fn law_placement_keeps_documents(
    before: WorkspaceModel,
    after: WorkspaceModel,
    said: Seq<Exchange>,
    placement: StatusBarPlacement,
)
    requires
        views_ready(before),
        workspace_sound(before),
        placement != before.placement,
        was_placed(before, after, said, placement),
    ensures
        after.placement == placement,
        same_documents(before, after),
{
    match placement {
        StatusBarPlacement::PerPane => {
            let outcome = choose|outcome: SpreadOutcome| #[trigger]
                was_spread(before, after, said, outcome);
            let space = before.global_status->0;
            let id = choose|id: u64| #[trigger] is_sole_status(before.views, space, id);
            law_status_space_shows_its_view(before, id, space);
            let closed = bar_closed(before, outcome.closed);
            assert(closed.views.dom() =~= before.views.dom());
            lemma_bars_keep_documents(closed, spread_editors(before, outcome), outcome.spaces);
        },
        StatusBarPlacement::Global => {
            let outcome = choose|outcome: GatherOutcome| #[trigger]
                was_gathered(before, after, said, outcome);
            let view = view_at(before.nodes, before.focused)->0;
            lemma_shown_view_is_there(before, before.focused, view);
            let index = before.status_by_editor;
            let emptied = WorkspaceModel { status_by_editor: Map::empty(), ..before };
            lemma_no_bars_keep_documents(emptied, index, outcome.editors);
            let closed = without_bars(emptied, index, outcome.editors);
            assert(closed.views.dom().contains(view.0));
            assert(after.views.dom() =~= before.views.dom());
        },
    }
}

proof fn lemma_bars_are_known(
    workspace: WorkspaceModel,
    editors: Seq<Leaf>,
    spaces: Seq<SpaceId>,
    i: int,
)
    requires
        0 <= i < editors.len(),
    ensures
        with_bars(workspace, editors, spaces).status_by_editor.contains_key(editors[i].view.0),
    decreases editors.len(),
{
    if i < editors.len() - 1 {
        lemma_bars_are_known(workspace, editors.drop_last(), spaces.drop_last(), i);
    }
}

/// When every view is to have a status bar of its own, each main area gets one, whether it takes
/// the focus or not.
pub proof fn law_spread_covers_main_areas(
    before: WorkspaceModel,
    after: WorkspaceModel,
    said: Seq<Exchange>,
    outcome: SpreadOutcome,
    editor: Leaf,
)
    requires
        was_spread(before, after, said, outcome),
        spread_editors(before, outcome).contains(editor),
    ensures
        after.status_by_editor.contains_key(editor.view.0),
{
    let editors = spread_editors(before, outcome);
    let i = editors.index_of(editor);
    lemma_bars_are_known(bar_closed(before, outcome.closed), editors, outcome.spaces, i);
}

/// Where every view has a status bar of its own, a view that is added gets one too, and the others
/// keep theirs.
pub proof fn law_split_view_has_its_bar(
    before: WorkspaceModel,
    after: WorkspaceModel,
    said: Seq<Exchange>,
    target: SpaceId,
    view: ViewModel,
    focusable: bool,
    direction: SplitDirection,
    focus_new: bool,
    outcome: SplitOutcome,
)
    requires
        before.placement is PerPane,
        was_split(
            before,
            after,
            said,
            target,
            view,
            focusable,
            direction,
            focus_new,
            outcome,
        ),
    ensures
        outcome.status matches Some(space) && after.status_by_editor
            == before.status_by_editor.insert(before.next_view_id, space),
{
}

/// Closing a view takes exactly that and its parts out, and leaves what the other views are about
/// alone.
pub proof fn law_close_removes_its_part(
    before: WorkspaceModel,
    after: WorkspaceModel,
    said: Seq<Exchange>,
    root: u64,
    target: SpaceId,
    neighbor: Option<SpaceId>,
    spaces: Seq<SpaceId>,
    scene: SceneModel,
    view: u64,
)
    requires
        was_closed(before, after, said, root, target, neighbor, spaces, scene),
        before.views.contains_key(view),
    ensures
        after.views.contains_key(view) <==> !whole_of(before, root).contains(view),
        after.views.contains_key(view) ==> same_document(before.views[view], after.views[view]),
        after.views.contains_key(view) ==> after.views[view].parent == before.views[view].parent,
{
    reveal(was_closed);
    let part = whole_of(before, root).to_set();
    assert(part.contains(view) == whole_of(before, root).contains(view));
    assert(after.views.dom().contains(view) == !part.contains(view));
}

/// What can be closed is refused exactly where nothing would be left that can have the focus, and
/// the error names the space.
pub proof fn law_last_focusable_is_not_closed(before: WorkspaceModel, target: SpaceId)
    requires
        subtree_refusal(before, target) is None,
    ensures
        close_refusal(before, target) is Some <==> forall|i: int|
            0 <= i < leaves(before.nodes).len() && focusable_at(
                before.nodes,
                (#[trigger] leaves(before.nodes)[i]).space,
            ) == Some(true) ==> part_of(before, target).contains(leaves(before.nodes)[i].view.0),
        close_refusal(before, target) matches Some(error) ==> error
            == LayoutError::WouldRemoveLastFocusable(target),
{
    let part = part_of(before, target);
    assert forall|view: u64| #[trigger] part.to_set().contains(view) == part.contains(view) by {}
}

/// What was closed is shown nowhere any more.
pub proof fn law_closed_views_are_shown_nowhere(
    before: WorkspaceModel,
    after: WorkspaceModel,
    said: Seq<Exchange>,
    root: u64,
    target: SpaceId,
    neighbor: Option<SpaceId>,
    spaces: Seq<SpaceId>,
    scene: SceneModel,
    space: SpaceId,
)
    requires
        workspace_sound(after),
        was_closed(before, after, said, root, target, neighbor, spaces, scene),
    ensures
        view_at(after.nodes, space) matches Some(view) ==> !whole_of(before, root).contains(view.0),
{
    reveal(was_closed);
    if let Some(view) = view_at(after.nodes, space) {
        lemma_shown_view_is_there(after, space, view);
        assert(after.views.dom().contains(view.0));
        assert(whole_of(before, root).to_set().contains(view.0) == whole_of(
            before,
            root,
        ).contains(view.0));
    }
}

/// The first of the leaves that can have the focus can have it.
proof fn lemma_first_focusable(nodes: Seq<SceneNode>, list: Seq<Leaf>, i: int)
    ensures
        first_focusable(nodes, list, i) matches Some(space) ==> focusable_at(nodes, space) == Some(
            true,
        ),
    decreases list.len() - i,
{
    if i < list.len() {
        lemma_first_focusable(nodes, list, i + 1);
    }
}

/// A focus outside of what is closed stays, unless the builder takes the focus from its space.
pub proof fn law_focus_outside_stays(
    before: WorkspaceModel,
    after: WorkspaceModel,
    said: Seq<Exchange>,
    root: u64,
    target: SpaceId,
    neighbor: Option<SpaceId>,
    spaces: Seq<SpaceId>,
    scene: SceneModel,
)
    requires
        was_closed(before, after, said, root, target, neighbor, spaces, scene),
        view_at(before.nodes, before.focused) matches Some(view) ==> !whole_of(
            before,
            root,
        ).contains(view.0),
    ensures
        after.focused == before.focused <==> focusable_at(scene.nodes, before.focused) == Some(
            true,
        ),
{
    reveal(was_closed);
    lemma_first_focusable(scene.nodes, leaves(scene.nodes), 0);
    if let Some(i) = index_of(scene.nodes, before.focused) {
        lemma_first_focusable(scene.nodes, leaves(nodes_below(scene.nodes, i)), 0);
    }
    if let Some(view) = view_at(before.nodes, before.focused) {
        assert(whole_of(before, root).to_set().contains(view.0) == whole_of(
            before,
            root,
        ).contains(view.0));
    }
}

/// Replacing a view takes exactly that and its parts out, and leaves what the other views are about
/// alone.
pub proof fn law_replacement_removes_its_part(
    before: WorkspaceModel,
    after: WorkspaceModel,
    said: Seq<Exchange>,
    root: u64,
    target: SpaceId,
    view: ViewModel,
    focusable: bool,
    spaces: Seq<SpaceId>,
    scene: SceneModel,
    other: u64,
)
    requires
        views_ready(before),
        was_replaced(before, after, said, root, target, view, focusable, spaces, scene),
        before.views.contains_key(other),
    ensures
        after.views.contains_key(other) <==> !whole_of(before, root).contains(other),
        after.views.contains_key(other) ==> same_document(before.views[other], after.views[other]),
        after.views.contains_key(other) ==> after.views[other].parent
            == before.views[other].parent,
        same_document(view, after.views[before.next_view_id]),
{
    reveal(was_replaced);
    let part = whole_of(before, root).to_set();
    assert(part.contains(other) == whole_of(before, root).contains(other));
    assert(after.views.dom().contains(other) == !part.contains(other));
}

/// Showing a pane and removing it again gives back the views as they were. The pane came into a
/// space that showed nothing, no view used its key before, and the scene that is left lets the
/// focus and the one status bar stay where they are.
pub proof fn law_removed_pane_leaves_the_views_as_they_were(
    before: WorkspaceModel,
    shown: WorkspaceModel,
    after: WorkspaceModel,
    view: ViewId,
    key: String,
    space: SpaceId,
    built: SceneModel,
    said: Seq<Exchange>,
    spaces: Seq<SpaceId>,
    scene: SceneModel,
)
    requires
        views_ready(before),
        workspace_sound(before),
        before.views.contains_key(view.0),
        view_at(before.nodes, space) is None,
        forall|id: u64, other: SpaceId| #[trigger]
            before.views.contains_key(id) && #[trigger] before.views[id].panes.contains_key(other)
                ==> before.views[id].panes[other] != key@,
        shown == with_extension_pane(before, view, key@, space, built),
        workspace_sound(shown),
        panes_removed(shown, after, said, seq![key], spaces, scene),
        focusable_at(scene.nodes, before.focused) == Some(true),
        before.placement is Global ==> view_at(scene.nodes, before.global_status->0) == view_at(
            scene.nodes,
            before.focused,
        ),
    ensures
        spaces == seq![space],
        after.views == before.views,
        after.focused == before.focused,
        after.next_view_id == before.next_view_id,
        after.placement == before.placement,
        after.global_status == before.global_status,
        after.status_by_editor == before.status_by_editor,
{
    let keys = seq![key];
    let pane = with_pane(before.views[view.0], space, key@);
    assert(view_agrees(before, view.0));
    assert(!before.views[view.0].panes.contains_key(space));
    assert(keys[0]@ == key@);
    assert(among(keys, key@));
    assert(shown.views[view.0] == pane);
    assert(shown.views.contains_key(view.0));
    assert(view_agrees(shown, view.0));
    assert forall|other: SpaceId| #[trigger] is_keyed(shown, keys, other) <==> other == space by {
        if is_keyed(shown, keys, other) {
            let id = choose|id: u64| #[trigger]
                shown.views.contains_key(id) && shown.views[id].panes.contains_key(other) && among(
                    keys,
                    shown.views[id].panes[other],
                );
            if id != view.0 {
                assert(before.views.contains_key(id));
                assert(before.views[id].panes.contains_key(other));
            }
        }
        if other == space {
            assert(pane.panes.contains_key(space) && among(keys, pane.panes[space]));
        }
    }
    assert(spaces.contains(space)) by {
        assert(is_keyed(shown, keys, space));
    }
    assert forall|i: int| 0 <= i < spaces.len() implies #[trigger] spaces[i] == space by {
        assert(spaces.contains(spaces[i]));
        assert(is_keyed(shown, keys, spaces[i]));
    }
    if spaces.len() > 1 {
        assert(spaces[0].0 > spaces[1].0);
    }
    assert(spaces =~= seq![space]);
    reveal_with_fuel(released, 2);
    assert(spaces.drop_last() =~= Seq::empty());
    assert(view_at(shown.nodes, space) == Some(view)) by {
        assert(shown.views[view.0].panes.contains_key(space));
        assert(view == ViewId(view.0));
    }
    assert(without_pane(pane, space).panes =~= before.views[view.0].panes);
    assert(released(shown, spaces) =~= before.views);
    assert(after.views =~= before.views);
}

} // verus!
