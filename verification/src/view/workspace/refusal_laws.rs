//! What is told where a workspace refuses something, and what it has asked for by then.

use crate::protocol::{ContentId, SpaceId, ViewId};
use crate::view::bindings::{content_of, in_name_order, BindingFault};
use crate::view::compound::{linked_child, CompoundModel};
use crate::view::content_state::{ContentViewState, SelectionsModel};
use crate::view::extension::reconcile::{install_fails, shown_in, was_installed, Install};
use crate::view::forest::numbers_of;
use crate::view::instance::{optional_state, view_sound, ViewModel};
use crate::view::layout::{LayoutError, StatusBarHandle, WorkspaceFault};
use crate::view::panes::space_for;
use crate::view::scene::{
    attach_answer, close_answer, focus_after, focusable_at, leaves, pane_answer, plain_answer,
    split_answer, view_at, CloseResult, Exchange, SceneAnswer, SceneBuilder, SceneError,
    SceneRequest, SplitResult, StatusPane,
};
use crate::view::soundness::{
    is_first_fault, law_faults_are_unsound, law_first_fault_holds, views_ready, workspace_sound,
    WorkspaceModel,
};
use crate::view::talk::{begins, requests_of, stops_at};
use crate::view::workspace::{rising, RemovedView, ViewWorkspace};
use crate::view::workspace::changes::{change_refuses, settle_refuses};
use crate::view::workspace::closing::{
    close_refuses, close_requests, replace_refusal, replace_refuses, replace_requests, root_refusal,
    root_replacement_refusal, whole_of,
};
use crate::view::workspace::compounds::{are_children, rebind_refusal};
use crate::view::workspace::family::{tells_binding_fault, tells_compound_fault, CompoundFault};
use crate::view::workspace::queries::{
    replacement_space, shows_content, status_bar, subtree_refusal, subtree_root,
};
use crate::view::workspace::removal::were_removed;
use crate::view::workspace::status::leaf_missing;
use crate::view::workspace::steps::{exchanged, sync_refuses};
use vstd::prelude::*;
use vstd::view::View as _;

verus! {

/// What stops at a refusal has asked for what it was to ask for, in order and up to there, and
/// tells why the builder refused the last of it.
pub proof fn law_refusal_of_the_builder_is_told(
    said: Seq<Exchange>,
    requests: Seq<SceneRequest>,
    error: LayoutError,
)
    requires
        stops_at(said, requests, error),
    ensures
        0 < said.len() <= requests.len(),
        forall|k: int|
            0 <= k < said.len() ==> (#[trigger] said[k]).request == requests[k],
        error matches LayoutError::Scene(reason) && said.last().answer == SceneAnswer::Refused(
            reason,
        ),
{
    assert forall|k: int| 0 <= k < said.len() implies (#[trigger] said[k]).request
        == requests[k] by {
        assert(requests_of(said)[k] == said[k].request);
    }
}

/// What a builder gives is kept as it is: the new space, the spaces of a pane, the neighbor that is
/// left, or why it refuses.
pub proof fn law_answers_are_what_the_builder_gave(
    split: SplitResult,
    pane: StatusPane,
    space: SpaceId,
    closed: CloseResult,
    error: SceneError,
)
    ensures
        split_answer(Ok(split)) == SceneAnswer::Split(split.new_space),
        split_answer(Err(error)) == SceneAnswer::Refused(error),
        pane_answer(Ok(pane)) == SceneAnswer::Pane(pane),
        pane_answer(Err(error)) == SceneAnswer::Refused(error),
        attach_answer(Ok(space)) == SceneAnswer::Attached(space),
        attach_answer(Err(error)) == SceneAnswer::Refused(error),
        close_answer(Ok(closed)) == SceneAnswer::Closed(closed.surviving_neighbor),
        close_answer(Err(error)) == SceneAnswer::Refused(error),
        plain_answer(Ok(())) == SceneAnswer::Done,
        plain_answer(Err(error)) == SceneAnswer::Refused(error),
{
}

/// An exchange with the builder is put down with what was asked and answered, and changes nothing
/// of the workspace but its scene.
pub proof fn law_exchanges_are_put_down<B: SceneBuilder>(
    before: ViewWorkspace<B>,
    after: ViewWorkspace<B>,
    request: SceneRequest,
    answer: SceneAnswer,
)
    requires
        exchanged(before, after, request, answer),
    ensures
        after.talk().len() == before.talk().len() + 1,
        after.talk().last().request == request,
        after.talk().last().answer == answer,
        after.talk().last().before.nodes == before.model().nodes,
        after.talk().last().after.nodes == after.model().nodes,
        after.model().views == before.model().views,
        after.model().focused == before.model().focused,
        after.model().scene_revision == before.model().scene_revision,
        after.model().next_view_id == before.model().next_view_id,
        after.model().placement == before.model().placement,
        after.model().global_status == before.model().global_status,
        after.model().status_by_editor == before.model().status_by_editor,
{
}

/// A view may be replaced exactly where its space is a main area of something that can be switched,
/// and the new view, or a leaf that is of no view of the part, can have the focus.
pub proof fn law_replacement_leaves_a_focus(
    workspace: WorkspaceModel,
    target: SpaceId,
    focusable: bool,
)
    ensures
        replace_refusal(workspace, target, focusable) is None <==> subtree_refusal(
            workspace,
            target,
        ) is None && (focusable || exists|i: int|
            0 <= i < leaves(workspace.nodes).len() && focusable_at(
                workspace.nodes,
                (#[trigger] leaves(workspace.nodes)[i]).space,
            ) == Some(true) && !whole_of(workspace, subtree_root(workspace, target)).contains(
                leaves(workspace.nodes)[i].view.0,
            )),
        subtree_refusal(workspace, target) is None && replace_refusal(workspace, target, focusable)
            is Some ==> replace_refusal(workspace, target, focusable) == Some(
            LayoutError::NoFocusableSpace,
        ),
        subtree_refusal(workspace, target) is Some ==> replace_refusal(
            workspace,
            target,
            focusable,
        ) == subtree_refusal(workspace, target),
{
    let list = whole_of(workspace, subtree_root(workspace, target));
    assert forall|view: u64| #[trigger] list.to_set().contains(view) == list.contains(view) by {}
}

/// The same of a part that is given by its root.
pub proof fn law_parts_leave_a_focus(
    workspace: WorkspaceModel,
    root: u64,
    target: SpaceId,
    focusable: bool,
)
    ensures
        ({
            let others = exists|i: int|
                0 <= i < leaves(workspace.nodes).len() && focusable_at(
                    workspace.nodes,
                    (#[trigger] leaves(workspace.nodes)[i]).space,
                ) == Some(true) && !whole_of(workspace, root).contains(
                    leaves(workspace.nodes)[i].view.0,
                );
            &&& root_refusal(workspace, root, target) is None <==> others
            &&& !others ==> root_refusal(workspace, root, target) == Some(
                LayoutError::WouldRemoveLastFocusable(target),
            )
            &&& root_replacement_refusal(workspace, root, focusable) is None <==> focusable
                || others
            &&& !focusable && !others ==> root_replacement_refusal(workspace, root, focusable)
                == Some(LayoutError::NoFocusableSpace)
        }),
{
    let list = whole_of(workspace, root);
    assert forall|view: u64| #[trigger] list.to_set().contains(view) == list.contains(view) by {}
}

/// A close that fails has asked for its spaces to be closed, in order and up to where it failed,
/// and the one that was pointed at last.
pub proof fn law_failed_close_asked_in_order(
    before: WorkspaceModel,
    root: u64,
    target: SpaceId,
    spaces: Seq<SpaceId>,
    said: Seq<Exchange>,
    error: LayoutError,
    k: int,
)
    requires
        close_refuses(before, root, target, spaces, said, error),
        0 <= k < said.len(),
    ensures
        k < spaces.len() ==> said[k].request == (SceneRequest::Close { space: spaces[k] }),
        k == spaces.len() ==> said[k].request == (SceneRequest::Close { space: target }),
{
    let first = close_requests(spaces.push(target));
    assert(requests_of(said)[k] == said[k].request);
    if begins(said, first) && k < first.len() {
        let taken = said.take(first.len() as int);
        assert(requests_of(taken)[k] == taken[k].request);
    }
    if k <= spaces.len() {
        assert(first[k] == (SceneRequest::Close { space: spaces.push(target)[k] }));
    }
}

/// A replacement that fails has asked for the other spaces to be closed, in order, and then for the
/// new view in the space that was pointed at, with the focusability that was given.
pub proof fn law_failed_replacement_asked_in_order(
    before: WorkspaceModel,
    root: u64,
    target: SpaceId,
    view: ViewModel,
    focusable: bool,
    spaces: Seq<SpaceId>,
    said: Seq<Exchange>,
    error: LayoutError,
    k: int,
)
    requires
        replace_refuses(before, root, target, view, focusable, spaces, said, error),
        0 <= k < said.len(),
    ensures
        k < spaces.len() ==> said[k].request == (SceneRequest::Close { space: spaces[k] }),
        k == spaces.len() ==> said[k].request == (SceneRequest::Replace {
            target,
            view: ViewId(before.next_view_id),
            focusable,
        }),
{
    let closing = close_requests(spaces);
    let first = closing + replace_requests(before, target, focusable);
    assert(requests_of(said)[k] == said[k].request);
    if begins(said, first) && k < first.len() {
        let taken = said.take(first.len() as int);
        assert(requests_of(taken)[k] == taken[k].request);
    }
    if k < spaces.len() {
        assert(first[k] == closing[k]);
    } else if k == spaces.len() {
        assert(first[k] == replace_requests(before, target, focusable)[0]);
    }
}

/// A change of the layout that cannot be settled found no leaf for the focus, or could not move the
/// one status bar to the view that has it, or would leave the workspace unsound.
pub proof fn law_unsettled_changes_say_why(
    workspace: WorkspaceModel,
    preferred: Option<SpaceId>,
    said: Seq<Exchange>,
    error: LayoutError,
)
    requires
        settle_refuses(workspace, preferred, said, error),
    ensures
        focus_after(workspace.nodes, workspace.focused, preferred) is None ==> error
            == LayoutError::NoFocusableSpace && said.len() == 0,
        said.len() <= 1,
        said.len() == 1 ==> (said[0].request matches SceneRequest::Replace {
            target,
            view,
            focusable,
        } && workspace.global_status == Some(target) && !focusable),
{
    assert(requests_of(said).len() == said.len());
    if said.len() > 0 {
        assert(requests_of(said)[0] == said[0].request);
    }
}

/// Where the one status bar cannot follow the focus, what is told is that the focus or the bar is
/// on no leaf, why the builder refused to move it, or that its view is not there.
pub proof fn law_status_bar_that_cannot_follow(
    workspace: WorkspaceModel,
    said: Seq<Exchange>,
    error: LayoutError,
    bar: SpaceId,
)
    requires
        sync_refuses(workspace, said, error),
        workspace.global_status == Some(bar),
    ensures
        workspace.placement is Global,
        view_at(workspace.nodes, workspace.focused) is None ==> error
            == LayoutError::NoFocusableSpace && said.len() == 0,
        view_at(workspace.nodes, workspace.focused) is Some && view_at(workspace.nodes, bar) is None
            ==> error == LayoutError::Scene(SceneError::ExpectedContentLeaf(bar)) && said.len()
            == 0,
        view_at(workspace.nodes, workspace.focused) matches Some(editor) ==> (view_at(
            workspace.nodes,
            bar,
        ) is Some ==> {
            &&& view_at(workspace.nodes, bar) != Some(editor)
            &&& said.len() == 1
            &&& said[0].request == (SceneRequest::Replace {
                target: bar,
                view: editor,
                focusable: false,
            })
            &&& (error matches LayoutError::Scene(reason) && said[0].answer
                == SceneAnswer::Refused(reason)) || (error == LayoutError::MissingView(editor)
                && !workspace.views.contains_key(editor.0))
        }),
{
    if said.len() > 0 {
        assert(requests_of(said)[0] == said[0].request);
    }
    assert(requests_of(said).len() == said.len());
}

/// A single change that is refused has asked for exactly that.
pub proof fn law_refused_change_asked_for_it(
    workspace: WorkspaceModel,
    request: SceneRequest,
    said: Seq<Exchange>,
    error: LayoutError,
)
    requires
        change_refuses(workspace, request, said, error),
    ensures
        said.len() == 1,
        said[0].request == request,
        said[0].answer matches SceneAnswer::Refused(reason) || (error
            matches LayoutError::InvalidWorkspace(_)),
{
    assert(requests_of(said).len() == said.len());
    assert(requests_of(said)[0] == said[0].request);
}

/// A role of a compound view that is not linked to a child, or that the view does not have, cannot
/// be bound: what is told is the view and the role.
pub proof fn law_unlinked_role_cannot_be_bound(
    error: LayoutError,
    workspace: WorkspaceModel,
    parent: ViewId,
    compound: CompoundModel,
    role: Seq<char>,
    content: ContentId,
    state: Option<SelectionsModel>,
)
    requires
        rebind_refusal(error, workspace, parent, compound, role, content, state),
    ensures
        linked_child(compound, role) is None || content_of(
            workspace.views[parent.0].bindings,
            role,
        ) is None ==> (error matches LayoutError::MissingBinding { view, binding } && view == parent
            && binding.name() == role),
        linked_child(compound, role) is Some && content_of(
            workspace.views[parent.0].bindings,
            role,
        ) is Some ==> content_of(workspace.views[parent.0].bindings, role) != Some(content),
{
}

/// A pane that has its space already is left alone, and one under a reserved key is refused.
pub proof fn law_panes_are_shown_once(
    before: WorkspaceModel,
    after: WorkspaceModel,
    said: Seq<Exchange>,
    install: Install,
)
    requires
        was_installed(before, after, said, install),
    ensures
        install.key != "body"@,
        install.key != "builtin.status"@,
        space_for(before.views[install.view.0].panes, install.key) is Some ==> after == before
            && said.len() == 0,
        space_for(before.views[install.view.0].panes, install.key) is None ==> said.len() == 2,
{
    if space_for(before.views[install.view.0].panes, install.key) is None {
        let space = choose|space: SpaceId| #[trigger]
            shown_in(before, after, said, install, space);
        assert(requests_of(said).len() == said.len());
    }
}

/// A pane that cannot be shown has a reserved key, or has no view to be shown next to, or the
/// builder or the workspace refuses it.
pub proof fn law_refused_panes_say_why(
    workspace: WorkspaceModel,
    install: Install,
    said: Seq<Exchange>,
    error: LayoutError,
)
    requires
        install_fails(workspace, install, said, error),
    ensures
        install.key == "body"@ || install.key == "builtin.status"@ ==> (error
            matches LayoutError::InvalidWorkspace(WorkspaceFault::ReservedPaneKey(key)) && key@
            == install.key),
        install.key != "body"@ && install.key != "builtin.status"@ && replacement_space(
            workspace,
            install.view.0,
        ) is None ==> (error matches LayoutError::InvalidWorkspace(
            WorkspaceFault::NoPaneAnchor { view, key },
        ) && view == install.view && key@ == install.key),
{
}

/// A status bar is told to show a content exactly where it is the one of a view whose document it
/// is.
pub proof fn law_status_bars_of_a_content(
    workspace: WorkspaceModel,
    content: ContentId,
    bar: StatusBarHandle,
)
    ensures
        shows_content(workspace, content, bar) <==> exists|id: u64| #[trigger]
            workspace.views.contains_key(id) && content_of(
                workspace.views[id].bindings,
                "document"@,
            ) == Some(content) && status_bar(workspace, id) == Some(bar),
{
}

/// A leaf without a view is told as that view missing.
pub proof fn law_missing_views_are_told(workspace: WorkspaceModel, error: LayoutError)
    requires
        leaf_missing(workspace, error),
    ensures
        error matches LayoutError::MissingView(view) && !workspace.views.contains_key(view.0)
            && exists|i: int|
            0 <= i < leaves(workspace.nodes).len() && (#[trigger] leaves(workspace.nodes)[i]).view
                == view,
{
    let i = choose|i: int|
        0 <= i < leaves(workspace.nodes).len() && !workspace.views.contains_key(
            (#[trigger] leaves(workspace.nodes)[i]).view.0,
        ) && error == LayoutError::MissingView(leaves(workspace.nodes)[i].view);
    assert(leaves(workspace.nodes)[i].view == error->MissingView_0);
}

/// What is removed is handed back: each view under its number, as it was.
pub proof fn law_removed_views_are_handed_back(
    removed: Seq<RemovedView>,
    list: Seq<u64>,
    views: Map<u64, ViewModel>,
    i: int,
)
    requires
        were_removed(removed, list, views),
    ensures
        removed.len() == list.len(),
        0 <= i < list.len() ==> removed[i].id.0 == list[i] && removed[i].view.model()
            == views[list[i]],
{
}

/// A view that can be shown has its roles in order, a state for its document exactly where it has
/// one, and no two spaces for the same use; its number has been given out.
pub proof fn law_ready_views(workspace: WorkspaceModel, id: u64, a: SpaceId, b: SpaceId)
    requires
        views_ready(workspace),
        workspace.views.contains_key(id),
    ensures
        id < workspace.next_view_id,
        in_name_order(workspace.views[id].bindings),
        workspace.views[id].document_state is Some <==> content_of(
            workspace.views[id].bindings,
            "document"@,
        ) is Some,
        workspace.views[id].panes.contains_key(a) && workspace.views[id].panes.contains_key(b)
            && workspace.views[id].panes[a] == workspace.views[id].panes[b] ==> a == b,
{
    assert(view_sound(workspace.views[id]));
}

/// The first thing that is wrong with a workspace is told: the focus before the leaves, and these
/// before the views and what they are part of, and the status bars last.
pub proof fn law_faults_are_told_in_order(workspace: WorkspaceModel, fault: WorkspaceFault)
    requires
        is_first_fault(workspace, fault),
    ensures
        focusable_at(workspace.nodes, workspace.focused) != Some(true) <==> fault
            is FocusNotFocusable,
        fault matches WorkspaceFault::MissingViewInScene { space, view }
            ==> !workspace.views.contains_key(view.0),
        fault is GlobalStatusInconsistent || fault is GlobalStatusStale ==> workspace.placement
            is Global,
        fault is RetainedGlobalStatus || fault is StatusIndexMismatch ==> workspace.placement
            is PerPane,
        fault is RetainedGlobalStatus ==> workspace.global_status is Some,
        !workspace_sound(workspace),
{
    law_first_fault_holds(workspace, fault);
    law_faults_are_unsound(workspace, fault);
}

/// A role that cannot be bound is told by its name where the view has no such role, and otherwise
/// as a state that does not go with it.
pub proof fn law_binding_faults_are_told(
    error: LayoutError,
    view: ViewId,
    fault: BindingFault,
    role: Seq<char>,
)
    requires
        tells_binding_fault(error, view, fault),
    ensures
        fault == BindingFault::Unknown(role) ==> (error matches LayoutError::MissingBinding {
            view: told,
            binding,
        } && told == view && binding.name() == role),
        fault is DocumentStateMismatch ==> error == LayoutError::InvalidWorkspace(
            WorkspaceFault::InvalidDocumentState(view),
        ),
{
}

/// What is told of a compound view that disagrees with its definition names what disagrees: the
/// view, the child that is missing or of another kind, or the two roles.
pub proof fn law_compound_faults_are_told(
    error: LayoutError,
    views: Map<u64, ViewModel>,
    parent: ViewId,
    compound: CompoundModel,
    fault: CompoundFault,
)
    requires
        tells_compound_fault(error, views, parent, compound, fault),
    ensures
        fault is MissingParent ==> error == LayoutError::MissingView(parent),
        fault is ChildCount ==> error == LayoutError::InvalidWorkspace(
            WorkspaceFault::CompoundChildCount(parent),
        ),
        fault == CompoundFault::MissingChild(0) ==> error == LayoutError::MissingView(
            views[parent.0].children[0],
        ),
        fault == CompoundFault::MissingChild(1) ==> error == LayoutError::MissingView(
            views[parent.0].children[1],
        ),
        fault == CompoundFault::ChildIdentity(0) ==> (error matches LayoutError::InvalidWorkspace(
            WorkspaceFault::CompoundChildIdentity { definition, child },
        ) && definition.name() == compound.definition.id && child@ == compound.first.key),
        fault == CompoundFault::ChildIdentity(1) ==> (error matches LayoutError::InvalidWorkspace(
            WorkspaceFault::CompoundChildIdentity { definition, child },
        ) && definition.name() == compound.definition.id && child@ == compound.second.key),
        fault matches CompoundFault::ChildBinding(index, link) ==> (index == 0 ==> (error
            matches LayoutError::InvalidWorkspace(
            WorkspaceFault::CompoundChildBinding { child, child_binding, parent_binding, .. },
        ) && child@ == compound.first.key && child_binding.name()
            == compound.first.links[link].child && parent_binding.name()
            == compound.first.links[link].parent)),
        fault matches CompoundFault::ChildBinding(index, link) ==> (index == 1 ==> (error
            matches LayoutError::InvalidWorkspace(
            WorkspaceFault::CompoundChildBinding { child, child_binding, parent_binding, .. },
        ) && child@ == compound.second.key && child_binding.name()
            == compound.second.links[link].child && parent_binding.name()
            == compound.second.links[link].parent)),
{
}

/// The children of a compound view are handed out in their order.
pub proof fn law_children_are_handed_out_in_order(
    views: Map<u64, ViewModel>,
    parent: ViewId,
    children: [ViewId; 2],
)
    requires
        are_children(views, parent, children),
    ensures
        views[parent.0].children.len() == 2,
        views[parent.0].children[0] == children@[0],
        views[parent.0].children[1] == children@[1],
{
}

/// Views are listed by their numbers, smallest first.
pub proof fn law_views_are_listed_by_number(views: Seq<ViewId>, i: int, j: int)
    requires
        rising(numbers_of(views)),
        0 <= i < j < views.len(),
    ensures
        views[i].0 < views[j].0,
        numbers_of(views)[i] == views[i].0,
        numbers_of(views).len() == views.len(),
{
    assert(numbers_of(views)[i] < numbers_of(views)[j]);
}

/// A state that is given is the one that is used, and none is used where none is given.
pub proof fn law_given_state_is_used(state: ContentViewState)
    ensures
        optional_state(Some(state)) == Some(state.model()),
        optional_state(None) is None,
{
}

} // verus!
