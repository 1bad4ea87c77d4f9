//! What holds of every workspace that is shown.

use crate::protocol::{SpaceId, ViewId};
use crate::view::bindings::content_of;
use crate::view::definition::{
    BUFFER_VIEW_DEFINITION, DIFF_VIEW_DEFINITION, LEFT_BINDING, RIGHT_BINDING,
};
use crate::view::forest::rooted;
use crate::view::instance::{document_of, view_sound, ViewModel};
use crate::view::layout::{DiffFault, StatusBarPlacement, WorkspaceFault};
use crate::view::panes::{space_for, uses, BODY_PANE, STATUS_PANE};
use crate::view::scene::{focusable_at, leaves, view_at, Leaf, SceneModel, SceneNode, SceneSize};
use vstd::prelude::*;
use vstd::view::View as _;

verus! {

/// Everything that a workspace holds, besides the builder of its scenes.
#[verifier::ext_equal]
pub struct WorkspaceModel {
    pub nodes: Seq<SceneNode>,
    pub size: SceneSize,
    pub scene_revision: u64,
    pub views: Map<u64, ViewModel>,
    pub next_view_id: u64,
    pub focused: SpaceId,
    pub placement: StatusBarPlacement,
    pub global_status: Option<SpaceId>,
    pub status_by_editor: Map<u64, SpaceId>,
}

/// Every view is sound, and new views get identities that no view has.
pub open spec fn views_ready(workspace: WorkspaceModel) -> bool {
    &&& forall|id: u64| #[trigger]
        workspace.views.contains_key(id) ==> view_sound(workspace.views[id]) && id
            < workspace.next_view_id
    &&& workspace.views.dom().finite()
}

/// Every leaf shows a view that uses it, and is one space.
pub open spec fn leaves_owned(nodes: Seq<SceneNode>, views: Map<u64, ViewModel>) -> bool {
    &&& forall|i: int|
        0 <= i < leaves(nodes).len() ==> views.contains_key((#[trigger] leaves(nodes)[i]).view.0)
            && views[leaves(nodes)[i].view.0].panes.contains_key(leaves(nodes)[i].space)
    &&& forall|i: int, j: int|
        0 <= i < j < leaves(nodes).len() ==> (#[trigger] leaves(nodes)[i]).space != (
        #[trigger] leaves(nodes)[j]).space
}

/// Every space that the view uses shows it.
pub open spec fn panes_shown(nodes: Seq<SceneNode>, id: u64, view: ViewModel) -> bool {
    forall|space: SpaceId| #[trigger]
        view.panes.contains_key(space) ==> view_at(nodes, space) == Some(ViewId(id))
}

/// The view is a child of its parent, and the parent of its children, each once.
pub open spec fn family_agrees(views: Map<u64, ViewModel>, id: u64) -> bool {
    let view = views[id];
    &&& view.parent matches Some(parent) ==> views.contains_key(parent.0)
        && views[parent.0].children.contains(ViewId(id))
    &&& view.children.no_duplicates()
    &&& forall|i: int|
        0 <= i < view.children.len() ==> is_child_of(views, #[trigger] view.children[i], id)
}

/// The view has that parent.
pub open spec fn is_child_of(views: Map<u64, ViewModel>, child: ViewId, id: u64) -> bool {
    views.contains_key(child.0) && views[child.0].parent == Some(ViewId(id))
}

/// The child shows what the role of the diff view is bound to.
pub open spec fn diff_child_agrees(
    views: Map<u64, ViewModel>,
    view: ViewModel,
    role: Seq<char>,
    child: ViewId,
) -> bool {
    &&& views.contains_key(child.0)
    &&& views[child.0].definition == BUFFER_VIEW_DEFINITION@
    &&& !views[child.0].switchable
    &&& document_of(views[child.0]) == content_of(view.bindings, role)
}

/// A diff view is a switchable parent of two buffer views that show what its roles are bound to,
/// and shows nothing itself.
pub open spec fn diff_agrees(views: Map<u64, ViewModel>, view: ViewModel) -> bool {
    &&& view.switchable
    &&& space_for(view.panes, BODY_PANE@) is None
    &&& space_for(view.panes, STATUS_PANE@) is None
    &&& view.children.len() == 2
    &&& diff_child_agrees(views, view, LEFT_BINDING@, view.children[0])
    &&& diff_child_agrees(views, view, RIGHT_BINDING@, view.children[1])
}

/// What holds of one view in its workspace.
pub open spec fn view_agrees(workspace: WorkspaceModel, id: u64) -> bool {
    &&& panes_shown(workspace.nodes, id, workspace.views[id])
    &&& family_agrees(workspace.views, id)
    &&& workspace.views[id].definition == DIFF_VIEW_DEFINITION@ ==> diff_agrees(
        workspace.views,
        workspace.views[id],
    )
}

/// The space that a view uses as its status bar.
pub open spec fn status_of(view: ViewModel) -> Option<SpaceId> {
    space_for(view.panes, STATUS_PANE@)
}

/// One view of the workspace, and no other, uses that space as its status bar.
pub open spec fn sole_status(views: Map<u64, ViewModel>, space: SpaceId) -> bool {
    exists|id: u64| #[trigger] is_sole_status(views, space, id)
}

/// That view, and no other, has a status bar, in that space.
pub open spec fn is_sole_status(views: Map<u64, ViewModel>, space: SpaceId, id: u64) -> bool {
    &&& views.contains_key(id)
    &&& status_of(views[id]) == Some(space)
    &&& forall|other: u64| #[trigger]
        views.contains_key(other) && other != id ==> status_of(views[other]) is None
}

/// The index of status bars is what the views use.
pub open spec fn index_agrees(views: Map<u64, ViewModel>, index: Map<u64, SpaceId>) -> bool {
    &&& forall|id: u64| #[trigger] index.contains_key(id) ==> views.contains_key(id)
    &&& forall|id: u64| #[trigger]
        views.contains_key(id) ==> status_of(views[id]) == if index.contains_key(id) {
            Some(index[id])
        } else {
            None
        }
}

/// The scene of a workspace.
pub open spec fn scene_of(workspace: WorkspaceModel) -> SceneModel {
    SceneModel { nodes: workspace.nodes, size: workspace.size }
}

/// Status bars are where the workspace says they are.
pub open spec fn status_agrees(workspace: WorkspaceModel) -> bool {
    match workspace.placement {
        StatusBarPlacement::Global => {
            &&& workspace.global_status is Some
            &&& workspace.status_by_editor.dom().is_empty()
            &&& sole_status(workspace.views, workspace.global_status->0)
        },
        StatusBarPlacement::PerPane => {
            &&& workspace.global_status is None
            &&& index_agrees(workspace.views, workspace.status_by_editor)
        },
    }
}

/// What holds of every workspace that is shown.
pub open spec fn workspace_sound(workspace: WorkspaceModel) -> bool {
    &&& focusable_at(workspace.nodes, workspace.focused) == Some(true)
    &&& leaves_owned(workspace.nodes, workspace.views)
    &&& forall|id: u64| #[trigger]
        workspace.views.contains_key(id) ==> view_agrees(workspace, id)
    &&& forall|id: u64| #[trigger]
        workspace.views.contains_key(id) ==> rooted(workspace.views, id)
    &&& status_agrees(workspace)
}

/// The diff view is at fault in that way.
pub open spec fn diff_fault_holds(
    views: Map<u64, ViewModel>,
    view: ViewModel,
    fault: DiffFault,
) -> bool {
    match fault {
        DiffFault::NotABareParent => !view.switchable || space_for(view.panes, BODY_PANE@) is Some
            || space_for(view.panes, STATUS_PANE@) is Some,
        DiffFault::WrongChildCount => view.children.len() != 2,
        DiffFault::MissingChild => view.children.len() == 2 && (!views.contains_key(
            view.children[0].0,
        ) || !views.contains_key(view.children[1].0)),
        DiffFault::InconsistentChild => view.children.len() == 2 && (!diff_child_agrees(
            views,
            view,
            LEFT_BINDING@,
            view.children[0],
        ) || !diff_child_agrees(views, view, RIGHT_BINDING@, view.children[1])),
    }
}

/// The workspace is at fault in that way.
pub open spec fn fault_holds(workspace: WorkspaceModel, fault: WorkspaceFault) -> bool {
    let views = workspace.views;
    match fault {
        WorkspaceFault::FocusNotFocusable => focusable_at(workspace.nodes, workspace.focused)
            != Some(true),
        WorkspaceFault::MissingViewInScene { space, view } => exists|i: int|
            0 <= i < leaves(workspace.nodes).len() && (#[trigger] leaves(workspace.nodes)[i]).space
                == space && leaves(workspace.nodes)[i].view == view && !views.contains_key(view.0),
        WorkspaceFault::SpaceWithoutPane(space) => exists|i: int|
            0 <= i < leaves(workspace.nodes).len() && (#[trigger] leaves(workspace.nodes)[i]).space
                == space && views.contains_key(leaves(workspace.nodes)[i].view.0)
                && !views[leaves(workspace.nodes)[i].view.0].panes.contains_key(space),
        WorkspaceFault::DuplicateSpace => exists|i: int, j: int|
            0 <= i < j < leaves(workspace.nodes).len() && (
            #[trigger] leaves(workspace.nodes)[i]).space == (
            #[trigger] leaves(workspace.nodes)[j]).space,
        WorkspaceFault::StalePane { view, space } => views.contains_key(view.0)
            && views[view.0].panes.contains_key(space) && view_at(workspace.nodes, space) != Some(
            view,
        ),
        WorkspaceFault::MissingParent { view, parent } => views.contains_key(view.0)
            && views[view.0].parent == Some(parent) && !views.contains_key(parent.0),
        WorkspaceFault::ForeignChild { parent, child } => views.contains_key(child.0)
            && views[child.0].parent == Some(parent) && views.contains_key(parent.0)
            && !views[parent.0].children.contains(child),
        WorkspaceFault::InvalidChild { view, child } => views.contains_key(view.0)
            && views[view.0].children.contains(child) && (!views[view.0].children.no_duplicates()
            || !is_child_of(views, child, view.0)),
        WorkspaceFault::Diff { view, fault } => views.contains_key(view.0)
            && views[view.0].definition == DIFF_VIEW_DEFINITION@ && diff_fault_holds(
            views,
            views[view.0],
            fault,
        ),
        WorkspaceFault::ParentCycle => exists|id: u64| #[trigger]
            views.contains_key(id) && !rooted(views, id),
        WorkspaceFault::GlobalStatusInconsistent => workspace.placement is Global && (
        workspace.global_status is None || !workspace.status_by_editor.dom().is_empty()),
        WorkspaceFault::GlobalStatusStale => workspace.placement is Global
            && workspace.global_status is Some && !sole_status(views, workspace.global_status->0),
        WorkspaceFault::RetainedGlobalStatus => workspace.placement is PerPane
            && workspace.global_status is Some,
        WorkspaceFault::StatusIndexMismatch => workspace.placement is PerPane && !index_agrees(
            views,
            workspace.status_by_editor,
        ),
        _ => false,
    }
}

/// What is wrong with the first leaf, from index `i` on, that something is wrong with.
pub open spec fn leaf_fault(list: Seq<Leaf>, views: Map<u64, ViewModel>, i: int) -> Option<
    WorkspaceFault,
>
    decreases list.len() - i,
{
    if i >= list.len() {
        None
    } else if !views.contains_key(list[i].view.0) {
        Some(WorkspaceFault::MissingViewInScene { space: list[i].space, view: list[i].view })
    } else if !views[list[i].view.0].panes.contains_key(list[i].space) {
        Some(WorkspaceFault::SpaceWithoutPane(list[i].space))
    } else if exists|j: int| 0 <= j < i && (#[trigger] list[j]).space == list[i].space {
        Some(WorkspaceFault::DuplicateSpace)
    } else {
        leaf_fault(list, views, i + 1)
    }
}

/// The first child of a view, from index `i` on, that it has twice or that has another parent.
pub open spec fn invalid_child(
    views: Map<u64, ViewModel>,
    id: u64,
    children: Seq<ViewId>,
    i: int,
) -> Option<ViewId>
    decreases children.len() - i,
{
    if i >= children.len() {
        None
    } else if (exists|j: int| 0 <= j < i && #[trigger] children[j] == children[i]) || !is_child_of(
        views,
        children[i],
        id,
    ) {
        Some(children[i])
    } else {
        invalid_child(views, id, children, i + 1)
    }
}

/// What is wrong with the child of a diff view for a role.
pub open spec fn diff_child_fault(
    views: Map<u64, ViewModel>,
    view: ViewModel,
    role: Seq<char>,
    child: ViewId,
) -> Option<DiffFault> {
    if !views.contains_key(child.0) {
        Some(DiffFault::MissingChild)
    } else if !diff_child_agrees(views, view, role, child) {
        Some(DiffFault::InconsistentChild)
    } else {
        None
    }
}

/// What is wrong with a diff view first.
pub open spec fn diff_fault(views: Map<u64, ViewModel>, view: ViewModel) -> Option<DiffFault> {
    if diff_fault_holds(views, view, DiffFault::NotABareParent) {
        Some(DiffFault::NotABareParent)
    } else if view.children.len() != 2 {
        Some(DiffFault::WrongChildCount)
    } else {
        match diff_child_fault(views, view, LEFT_BINDING@, view.children[0]) {
            Some(fault) => Some(fault),
            None => diff_child_fault(views, view, RIGHT_BINDING@, view.children[1]),
        }
    }
}

/// What is wrong with the family of a view first.
pub open spec fn family_fault(views: Map<u64, ViewModel>, id: u64) -> Option<WorkspaceFault> {
    let view = views[id];
    let child_fault = match invalid_child(views, id, view.children, 0) {
        Some(child) => Some(WorkspaceFault::InvalidChild { view: ViewId(id), child }),
        None => None,
    };
    match view.parent {
        Some(parent) => if !views.contains_key(parent.0) {
            Some(WorkspaceFault::MissingParent { view: ViewId(id), parent })
        } else if !views[parent.0].children.contains(ViewId(id)) {
            Some(WorkspaceFault::ForeignChild { parent, child: ViewId(id) })
        } else {
            child_fault
        },
        None => child_fault,
    }
}

/// The fault is what is wrong with a view first. Among its spaces none comes first.
pub open spec fn is_view_fault(workspace: WorkspaceModel, id: u64, fault: WorkspaceFault) -> bool {
    let view = workspace.views[id];
    &&& workspace.views.contains_key(id)
    &&& if !panes_shown(workspace.nodes, id, view) {
        fault matches WorkspaceFault::StalePane { view: told, space } && told.0 == id
            && view.panes.contains_key(space) && view_at(workspace.nodes, space) != Some(
            ViewId(id),
        )
    } else {
        match family_fault(workspace.views, id) {
            Some(found) => fault == found,
            None => view.definition == DIFF_VIEW_DEFINITION@ && (diff_fault(
                workspace.views,
                view,
            ) matches Some(found) && fault == (WorkspaceFault::Diff {
                view: ViewId(id),
                fault: found,
            })),
        }
    }
}

/// What is wrong with the status bars first.
pub open spec fn status_fault(workspace: WorkspaceModel) -> Option<WorkspaceFault> {
    match workspace.placement {
        StatusBarPlacement::Global => if workspace.global_status is None
            || !workspace.status_by_editor.dom().is_empty() {
            Some(WorkspaceFault::GlobalStatusInconsistent)
        } else if !sole_status(workspace.views, workspace.global_status->0) {
            Some(WorkspaceFault::GlobalStatusStale)
        } else {
            None
        },
        StatusBarPlacement::PerPane => if workspace.global_status is Some {
            Some(WorkspaceFault::RetainedGlobalStatus)
        } else if !index_agrees(workspace.views, workspace.status_by_editor) {
            Some(WorkspaceFault::StatusIndexMismatch)
        } else {
            None
        },
    }
}

/// Every view agrees with the workspace.
pub open spec fn all_agree(workspace: WorkspaceModel) -> bool {
    forall|id: u64| #[trigger] workspace.views.contains_key(id) ==> view_agrees(workspace, id)
}

/// Every view is part of one that is part of no other.
pub open spec fn all_rooted(views: Map<u64, ViewModel>) -> bool {
    forall|id: u64| #[trigger] views.contains_key(id) ==> rooted(views, id)
}

/// The fault is what is wrong with the workspace first: the focus, the leaves in their order, the
/// views, of which none comes first, what goes round in circles, and the status bars.
pub open spec fn is_first_fault(workspace: WorkspaceModel, fault: WorkspaceFault) -> bool {
    if focusable_at(workspace.nodes, workspace.focused) != Some(true) {
        fault == WorkspaceFault::FocusNotFocusable
    } else {
        match leaf_fault(leaves(workspace.nodes), workspace.views, 0) {
            Some(found) => fault == found,
            None => if !all_agree(workspace) {
                exists|id: u64| #[trigger] is_view_fault(workspace, id, fault)
            } else if !all_rooted(workspace.views) {
                fault == WorkspaceFault::ParentCycle
            } else {
                status_fault(workspace) == Some(fault)
            },
        }
    }
}

proof fn lemma_leaf_fault_holds(workspace: WorkspaceModel, i: int)
    requires
        0 <= i,
    ensures
        leaf_fault(leaves(workspace.nodes), workspace.views, i) matches Some(fault) ==> fault_holds(
            workspace,
            fault,
        ),
    decreases leaves(workspace.nodes).len() - i,
{
    let list = leaves(workspace.nodes);
    if i < list.len() {
        lemma_leaf_fault_holds(workspace, i + 1);
        assert(list[i] == leaves(workspace.nodes)[i]);
    }
}

proof fn lemma_invalid_child(views: Map<u64, ViewModel>, id: u64, children: Seq<ViewId>, i: int)
    requires
        0 <= i,
    ensures
        invalid_child(views, id, children, i) matches Some(child) ==> children.contains(child) && (
        !children.no_duplicates() || !is_child_of(views, child, id)),
    decreases children.len() - i,
{
    if i < children.len() {
        lemma_invalid_child(views, id, children, i + 1);
        assert(children.contains(children[i]));
    }
}

/// What is wrong with a workspace first is wrong with it.
pub proof fn law_first_fault_holds(workspace: WorkspaceModel, fault: WorkspaceFault)
    requires
        is_first_fault(workspace, fault),
    ensures
        fault_holds(workspace, fault),
{
    lemma_leaf_fault_holds(workspace, 0);
    if focusable_at(workspace.nodes, workspace.focused) == Some(true) && leaf_fault(
        leaves(workspace.nodes),
        workspace.views,
        0,
    ) is None && !all_agree(workspace) {
        let id = choose|id: u64| #[trigger] is_view_fault(workspace, id, fault);
        lemma_invalid_child(workspace.views, id, workspace.views[id].children, 0);
    }
}

/// A workspace that is at fault is not shown.
pub proof fn law_faults_are_unsound(workspace: WorkspaceModel, fault: WorkspaceFault)
    requires
        fault_holds(workspace, fault),
    ensures
        !workspace_sound(workspace),
{
    match fault {
        WorkspaceFault::StalePane { view, space } => {
            if workspace_sound(workspace) {
                assert(view_agrees(workspace, view.0));
            }
        },
        WorkspaceFault::MissingParent { view, parent } => {
            if workspace_sound(workspace) {
                assert(view_agrees(workspace, view.0));
            }
        },
        WorkspaceFault::ForeignChild { parent, child } => {
            if workspace_sound(workspace) {
                assert(view_agrees(workspace, child.0));
            }
        },
        WorkspaceFault::InvalidChild { view, child } => {
            if workspace_sound(workspace) {
                assert(view_agrees(workspace, view.0));
                let children = workspace.views[view.0].children;
                let k = choose|k: int| 0 <= k < children.len() && children[k] == child;
                assert(is_child_of(workspace.views, children[k], view.0));
            }
        },
        WorkspaceFault::Diff { view, fault } => {
            if workspace_sound(workspace) {
                assert(view_agrees(workspace, view.0));
            }
        },
        _ => {},
    }
}

/// Every status bar that a sound workspace knows of is shown by the view that it belongs to.
pub proof fn law_status_space_shows_its_view(workspace: WorkspaceModel, id: u64, space: SpaceId)
    requires
        workspace_sound(workspace),
        views_ready(workspace),
        workspace.views.contains_key(id),
        status_of(workspace.views[id]) == Some(space),
    ensures
        view_at(workspace.nodes, space) == Some(ViewId(id)),
        uses(workspace.views[id].panes, STATUS_PANE@, space),
{
    let panes = workspace.views[id].panes;
    assert(uses(panes, STATUS_PANE@, space));
    assert(view_agrees(workspace, id));
}

/// A space belongs to one view of a sound workspace at most.
pub proof fn law_spaces_have_one_view(workspace: WorkspaceModel, a: u64, b: u64, space: SpaceId)
    requires
        workspace_sound(workspace),
        workspace.views.contains_key(a),
        workspace.views.contains_key(b),
        workspace.views[a].panes.contains_key(space),
        workspace.views[b].panes.contains_key(space),
    ensures
        a == b,
{
    assert(view_agrees(workspace, a));
    assert(view_agrees(workspace, b));
}

} // verus!
