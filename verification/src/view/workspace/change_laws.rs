//! What changes of the layout leave of the views, and where the focus goes.

use crate::protocol::{ContentId, SpaceId, ViewId};
use crate::view::bindings::{content_of, in_name_order};
use crate::view::compound::{linked_child, CompoundModel};
use crate::view::content_state::SelectionsModel;
use crate::view::forest::{listed, numbers_of, rooted, rooted_within, subtree};
use crate::view::instance::{child_index, child_removed, ViewModel};
use crate::view::laws::law_rebound_view_changes_one_role;
use crate::view::layout::LayoutError;
use crate::view::panes::{key_for, space_for, BODY_PANE, STATUS_PANE};
use crate::view::scene::{
    first_focusable, focus_after, focusable_at, index_of, law_preferred_focus, leaves, nodes_below,
    view_at, Exchange, Leaf, SceneModel, SceneNode, SceneRequest,
};
use crate::view::soundness::{
    family_agrees, is_child_of, is_sole_status, scene_of, status_of, view_agrees, workspace_sound,
    WorkspaceModel,
};
use crate::view::talk::requests_of;
use crate::view::workspace::changes::settled;
use crate::view::workspace::closing::{
    close_requests, closed_draft, focus_after_close, own_status, replaced_draft, was_closed,
    was_replaced, whole_of,
};
use crate::view::workspace::compounds::compound_rebound;
use crate::view::workspace::contents::{first_with_focus, has_focus, replaced_root, roots_but};
use crate::view::workspace::extension_panes::{
    among, first_reserved, is_keyed, panes_removed, reserved_at,
};
use crate::view::workspace::queries::{close_refusal, status_bar, subtree_refusal, subtree_root};
use crate::view::workspace::removal::{closing_order, orders, space_numbers, to_close};
use vstd::prelude::*;
use vstd::view::View as _;

verus! {

proof fn lemma_first_focusable_leaf(nodes: Seq<SceneNode>, list: Seq<Leaf>, i: int)
    requires
        0 <= i,
    ensures
        match first_focusable(nodes, list, i) {
            Some(space) => exists|k: int|
                i <= k < list.len() && (#[trigger] list[k]).space == space && focusable_at(
                    nodes,
                    space,
                ) == Some(true) && forall|j: int|
                    i <= j < k ==> focusable_at(nodes, (#[trigger] list[j]).space) != Some(true),
            None => forall|j: int|
                i <= j < list.len() ==> focusable_at(nodes, (#[trigger] list[j]).space) != Some(
                    true,
                ),
        },
    decreases list.len() - i,
{
    if i < list.len() {
        lemma_first_focusable_leaf(nodes, list, i + 1);
        if focusable_at(nodes, list[i].space) != Some(true) {
            if let Some(space) = first_focusable(nodes, list, i + 1) {
                let k = choose|k: int|
                    i + 1 <= k < list.len() && (#[trigger] list[k]).space == space && focusable_at(
                        nodes,
                        space,
                    ) == Some(true) && forall|j: int|
                        i + 1 <= j < k ==> focusable_at(nodes, (#[trigger] list[j]).space) != Some(
                            true,
                        );
                assert forall|j: int| i <= j < k implies focusable_at(
                    nodes,
                    (#[trigger] list[j]).space,
                ) != Some(true) by {}
                assert(list[k].space == space);
            }
        } else {
            assert(list[i].space == first_focusable(nodes, list, i)->0);
        }
    }
}

/// The focus goes where it is wanted, or to the first leaf below that can have it. Where nothing
/// there can, it stays, and where it cannot stay it goes to the first leaf of all that can have it.
pub proof fn law_focus_goes_to_the_first_that_can_have_it(
    nodes: Seq<SceneNode>,
    previous: SpaceId,
    wanted: SpaceId,
    at: int,
)
    requires
        index_of(nodes, wanted) == Some(at),
        focusable_at(nodes, wanted) != Some(true),
    ensures
        ({
            let below = leaves(nodes_below(nodes, at));
            let none_below = forall|j: int|
                0 <= j < below.len() ==> focusable_at(nodes, (#[trigger] below[j]).space) != Some(
                    true,
                );
            let all = leaves(nodes);
            &&& !none_below ==> exists|k: int|
                0 <= k < below.len() && focus_after(nodes, previous, Some(wanted)) == Some(
                    (#[trigger] below[k]).space,
                ) && focusable_at(nodes, below[k].space) == Some(true) && forall|j: int|
                    0 <= j < k ==> focusable_at(nodes, (#[trigger] below[j]).space) != Some(true)
            &&& none_below && focusable_at(nodes, previous) == Some(true) ==> focus_after(
                nodes,
                previous,
                Some(wanted),
            ) == Some(previous)
            &&& none_below && focusable_at(nodes, previous) != Some(true) && (focus_after(
                nodes,
                previous,
                Some(wanted),
            ) is Some) ==> exists|k: int|
                0 <= k < all.len() && focus_after(nodes, previous, Some(wanted)) == Some(
                    (#[trigger] all[k]).space,
                ) && forall|j: int|
                    0 <= j < k ==> focusable_at(nodes, (#[trigger] all[j]).space) != Some(true)
            &&& focusable_at(nodes, previous) == Some(true) ==> focus_after(nodes, previous, None)
                == Some(previous)
        }),
{
    lemma_first_focusable_leaf(nodes, leaves(nodes_below(nodes, at)), 0);
    lemma_first_focusable_leaf(nodes, leaves(nodes), 0);
}

/// A part of the workspace may be closed exactly where its space is a main area of something that
/// can be switched, and a leaf that can have the focus is left that is of no view of the part.
pub proof fn law_something_keeps_the_focus(workspace: WorkspaceModel, target: SpaceId)
    ensures
        close_refusal(workspace, target) is None <==> subtree_refusal(workspace, target) is None
            && exists|i: int|
            0 <= i < leaves(workspace.nodes).len() && focusable_at(
                workspace.nodes,
                (#[trigger] leaves(workspace.nodes)[i]).space,
            ) == Some(true) && !whole_of(workspace, subtree_root(workspace, target)).contains(
                leaves(workspace.nodes)[i].view.0,
            ),
        subtree_refusal(workspace, target) is None && close_refusal(workspace, target) is Some
            ==> close_refusal(workspace, target) == Some(
            LayoutError::WouldRemoveLastFocusable(target),
        ),
        subtree_refusal(workspace, target) is Some ==> close_refusal(workspace, target)
            == subtree_refusal(workspace, target),
{
    let list = whole_of(workspace, subtree_root(workspace, target));
    assert forall|view: u64| #[trigger] list.to_set().contains(view) == list.contains(view) by {}
}

/// Spaces are closed in order: first those that are attached to a view, then the main areas, each
/// of them by number.
pub proof fn law_attached_spaces_close_first(
    workspace: WorkspaceModel,
    list: Seq<u64>,
    target: SpaceId,
    kept: Seq<SpaceId>,
    spaces: Seq<SpaceId>,
    a: int,
    b: int,
)
    requires
        closing_order(workspace, list, target, kept, spaces),
        0 <= a < b < spaces.len(),
    ensures
        ({
            let is_attached = |space: SpaceId|
                exists|i: int|
                    0 <= i < list.len() && key_for(
                        workspace.views[#[trigger] list[i]].panes,
                        space,
                    ) is Some && key_for(workspace.views[list[i]].panes, space) != Some("body"@);
            let is_main = |space: SpaceId|
                exists|i: int|
                    0 <= i < list.len() && key_for(
                        workspace.views[#[trigger] list[i]].panes,
                        space,
                    ) == Some("body"@);
            ||| is_attached(spaces[a]) && is_main(spaces[b])
            ||| is_attached(spaces[a]) && is_attached(spaces[b]) && spaces[a].0 < spaces[b].0
            ||| is_main(spaces[a]) && is_main(spaces[b]) && spaces[a].0 < spaces[b].0
        }),
{
    let (attached, bodies) = choose|attached: Seq<u64>, bodies: Seq<u64>| #[trigger]
        orders(workspace, list, target, kept, spaces, attached, bodies);
    let numbers = space_numbers(spaces);
    assert(numbers.len() == spaces.len());
    assert(numbers.len() == attached.len() + bodies.len());
    assert(numbers[a] == (attached + bodies)[a]);
    assert(numbers[b] == (attached + bodies)[b]);
    assert(SpaceId(numbers[a]) == spaces[a]);
    assert(SpaceId(numbers[b]) == spaces[b]);
    if a < attached.len() {
        assert(attached.contains(attached[a]));
        assert(to_close(workspace, list, target, kept, false, spaces[a]));
    } else {
        assert(bodies.contains(bodies[a - attached.len()]));
        assert(to_close(workspace, list, target, kept, true, spaces[a]));
    }
    if b < attached.len() {
        assert(attached.contains(attached[b]));
        assert(to_close(workspace, list, target, kept, false, spaces[b]));
    } else {
        assert(bodies.contains(bodies[b - attached.len()]));
        assert(to_close(workspace, list, target, kept, true, spaces[b]));
    }
}

proof fn lemma_settled(
    draft: WorkspaceModel,
    preferred: Option<SpaceId>,
    scene: SceneModel,
    id: u64,
)
    requires
        draft.views.contains_key(id),
    ensures
        ({
            let after = settled(draft, preferred, scene);
            &&& after.views[id] == (ViewModel {
                panes: after.views[id].panes,
                ..draft.views[id]
            })
            &&& forall|space: SpaceId|
                draft.global_status != Some(space) ==> key_for(after.views[id].panes, space)
                    == #[trigger] key_for(draft.views[id].panes, space) || key_for(
                    draft.views[id].panes,
                    space,
                ) == Some("builtin.status"@)
            &&& after.views.contains_key(id)
            &&& after.status_by_editor == draft.status_by_editor
            &&& after.placement == draft.placement
        }),
{
}

/// When a part is closed, what it was part of has it no more among its parts, and the others stay
/// in their order.
pub proof fn law_closed_part_leaves_its_owner(
    before: WorkspaceModel,
    after: WorkspaceModel,
    said: Seq<Exchange>,
    root: u64,
    target: SpaceId,
    neighbor: Option<SpaceId>,
    spaces: Seq<SpaceId>,
    scene: SceneModel,
    owner: ViewId,
)
    requires
        was_closed(before, after, said, root, target, neighbor, spaces, scene),
        before.views[root].parent == Some(owner),
        before.views.contains_key(owner.0),
        !whole_of(before, root).contains(owner.0),
    ensures
        after.views.contains_key(owner.0),
        after.views[owner.0].children == before.views[owner.0].children.filter(
            |child: ViewId| child.0 != root,
        ),
        after.views[owner.0].bindings == before.views[owner.0].bindings,
        after.views[owner.0].parent == before.views[owner.0].parent,
        forall|id: u64|
            #![trigger after.views[id]]
            before.views.contains_key(id) && id != owner.0 && !whole_of(before, root).contains(id)
                ==> after.views[id].children == before.views[id].children
                && after.views[id].bindings == before.views[id].bindings && after.views[id].parent
                == before.views[id].parent && after.views[id].document_state
                == before.views[id].document_state,
        after.scene_revision == (before.scene_revision + 1) as u64,
        after.next_view_id == before.next_view_id,
{
    reveal(was_closed);
    let list = whole_of(before, root);
    let draft = closed_draft(before, root, scene);
    let preferred = focus_after_close(before, root, neighbor);
    assert(list.to_set().contains(owner.0) == list.contains(owner.0));
    lemma_settled(draft, preferred, scene_of(after), owner.0);
    lemma_child_removed(before.views[owner.0].children, root);
    assert forall|id: u64|
        #![trigger after.views[id]]
        before.views.contains_key(id) && id != owner.0 && !list.contains(id) implies
        after.views[id].children == before.views[id].children && after.views[id].bindings
        == before.views[id].bindings && after.views[id].parent == before.views[id].parent
        && after.views[id].document_state == before.views[id].document_state by {
        assert(list.to_set().contains(id) == list.contains(id));
        lemma_settled(draft, preferred, scene_of(after), id);
    }
}

proof fn lemma_child_removed(children: Seq<ViewId>, root: u64)
    ensures
        child_removed(children, ViewId(root)) == children.filter(
            |child: ViewId| child.0 != root,
        ),
    decreases children.len(),
{
    reveal(Seq::filter);
    if children.len() > 0 {
        lemma_child_removed(children.drop_last(), root);
        assert(children.last() == ViewId(root) <==> children.last().0 == root);
    }
}

/// A view that comes in the place of another is about what was given, has the main area and the
/// status bar of its own that were there, and stands where the other stood among the parts of what
/// it was part of.
pub proof fn law_replacement_takes_the_place(
    before: WorkspaceModel,
    after: WorkspaceModel,
    said: Seq<Exchange>,
    root: u64,
    target: SpaceId,
    view: ViewModel,
    focusable: bool,
    spaces: Seq<SpaceId>,
    scene: SceneModel,
)
    requires
        was_replaced(before, after, said, root, target, view, focusable, spaces, scene),
        before.global_status != Some(target),
        own_status(before, target) != Some(target),
        before.next_view_id < u64::MAX,
        before.scene_revision < u64::MAX,
    ensures
        after.next_view_id == before.next_view_id + 1,
        after.scene_revision == before.scene_revision + 1,
        ({
            let new = after.views[before.next_view_id];
            &&& after.views.contains_key(before.next_view_id)
            &&& new.bindings == view.bindings
            &&& new.definition == view.definition
            &&& new.document_state == view.document_state
            &&& new.switchable == view.switchable
            &&& key_for(new.panes, target) == Some("body"@)
            &&& before.views[root].parent is Some ==> new.parent == before.views[root].parent
            &&& view_at(before.nodes, target) matches Some(old) ==> (before.placement is PerPane
                && before.status_by_editor.contains_key(old.0)
                ==> after.status_by_editor.contains_key(before.next_view_id)
                && after.status_by_editor[before.next_view_id] == before.status_by_editor[old.0])
        }),
{
    reveal(was_replaced);
    reveal_strlit("body");
    reveal_strlit("builtin.status");
    assert(BODY_PANE@.len() == 4);
    assert(STATUS_PANE@.len() == 14);
    let draft = replaced_draft(before, root, target, view, scene);
    let preferred = focus_after_close(
        before,
        root,
        Some(target),
    );
    lemma_settled(draft, preferred, scene_of(after), before.next_view_id);
    assert(key_for(draft.views[before.next_view_id].panes, target) == Some("body"@));
}

/// The part that is replaced keeps its place in the order of the parts of its owner.
pub proof fn law_replacement_keeps_the_order(
    before: WorkspaceModel,
    after: WorkspaceModel,
    said: Seq<Exchange>,
    root: u64,
    target: SpaceId,
    view: ViewModel,
    focusable: bool,
    spaces: Seq<SpaceId>,
    scene: SceneModel,
    owner: ViewId,
    at: int,
)
    requires
        was_replaced(before, after, said, root, target, view, focusable, spaces, scene),
        before.views[root].parent == Some(owner),
        before.views.contains_key(owner.0),
        owner.0 != before.next_view_id,
        !whole_of(before, root).contains(owner.0),
        before.views[owner.0].children.no_duplicates(),
        0 <= at < before.views[owner.0].children.len(),
        before.views[owner.0].children[at] == ViewId(root),
    ensures
        after.views[owner.0].children == before.views[owner.0].children.update(
            at,
            ViewId(before.next_view_id),
        ),
{
    reveal(was_replaced);
    let list = whole_of(before, root);
    let draft = replaced_draft(before, root, target, view, scene);
    let preferred = focus_after_close(
        before,
        root,
        Some(target),
    );
    assert(list.to_set().contains(owner.0) == list.contains(owner.0));
    lemma_settled(draft, preferred, scene_of(after), owner.0);
    lemma_child_at(before.views[owner.0].children, at, 0);
}

proof fn lemma_child_at(children: Seq<ViewId>, at: int, i: int)
    requires
        children.no_duplicates(),
        0 <= i <= at < children.len(),
    ensures
        child_index(children, children[at], i) == Some(at),
    decreases at - i,
{
    if i < at {
        assert(children[i] != children[at]);
        lemma_child_at(children, at, i + 1);
    }
}

/// To bind a linked role of a compound view is to bind it and the role of the child that takes its
/// content, and nothing else: no other role, and no other view.
pub proof fn law_compound_is_rebound_together(
    workspace: WorkspaceModel,
    parent: ViewId,
    compound: CompoundModel,
    role: Seq<char>,
    content: ContentId,
    state: Option<SelectionsModel>,
    index: int,
    child_role: Seq<char>,
    other: Seq<char>,
)
    requires
        linked_child(compound, role) == Some((index, child_role)),
        ({
            let view = workspace.views[parent.0];
            let child = workspace.views[view.children[index].0];
            &&& workspace.views.contains_key(parent.0)
            &&& workspace.views.contains_key(view.children[index].0)
            &&& view.children[index] != parent
            &&& in_name_order(view.bindings)
            &&& in_name_order(child.bindings)
            &&& view.revision < u64::MAX && view.binding_revision < u64::MAX
            &&& child.revision < u64::MAX && child.binding_revision < u64::MAX
            &&& content_of(view.bindings, role) is Some
            &&& content_of(view.bindings, role) != Some(content)
            &&& content_of(child.bindings, child_role) is Some
            &&& content_of(child.bindings, child_role) != Some(content)
        }),
    ensures
        ({
            let after = compound_rebound(workspace, parent, compound, role, content, state);
            let id = workspace.views[parent.0].children[index];
            &&& content_of(after.views[parent.0].bindings, role) == Some(content)
            &&& content_of(after.views[id.0].bindings, child_role) == Some(content)
            &&& after.views[id.0].document_state == Some(state)
            &&& after.views[parent.0].document_state == workspace.views[parent.0].document_state
            &&& other != role ==> content_of(after.views[parent.0].bindings, other) == content_of(
                workspace.views[parent.0].bindings,
                other,
            )
            &&& other != child_role ==> content_of(after.views[id.0].bindings, other)
                == content_of(workspace.views[id.0].bindings, other)
            &&& after.views.dom() == workspace.views.dom()
            &&& forall|another: u64|
                #![trigger after.views[another]]
                another != parent.0 && another != id.0 ==> after.views[another]
                    == workspace.views[another]
            &&& after.nodes == workspace.nodes && after.focused == workspace.focused
                && after.scene_revision == workspace.scene_revision
        }),
{
    let view = workspace.views[parent.0];
    let id = view.children[index];
    let child = workspace.views[id.0];
    law_rebound_view_changes_one_role(view, role, content, None, other);
    law_rebound_view_changes_one_role(child, child_role, content, Some(state), other);
    assert(id.0 != parent.0);
    let after = compound_rebound(workspace, parent, compound, role, content, state);
    assert(after.views.dom() =~= workspace.views.dom());
}

proof fn lemma_first_with_focus(workspace: WorkspaceModel, roots: Seq<u64>, i: int)
    requires
        0 <= i,
    ensures
        match first_with_focus(workspace, roots, i) {
            Some(root) => roots.contains(root) && has_focus(workspace, root),
            None => forall|k: int|
                i <= k < roots.len() ==> !has_focus(workspace, #[trigger] roots[k]),
        },
    decreases roots.len() - i,
{
    if i < roots.len() {
        lemma_first_with_focus(workspace, roots, i + 1);
    }
}

/// Where a content goes for which another view has to come, that view comes where the focus is, if
/// that goes with the content, or else in the first place. All other places are closed.
pub proof fn law_replacement_comes_where_the_focus_is(
    workspace: WorkspaceModel,
    roots: Seq<u64>,
    focused: ViewId,
)
    requires
        roots.len() > 0,
        view_at(workspace.nodes, workspace.focused) == Some(focused),
    ensures
        ({
            let holds = |root: u64|
                subtree(workspace.views, root) is Ok && subtree(
                    workspace.views,
                    root,
                )->Ok_0.contains(focused.0);
            let root = replaced_root(workspace, roots);
            &&& roots.contains(root)
            &&& (exists|k: int| 0 <= k < roots.len() && holds(#[trigger] roots[k])) ==> holds(root)
            &&& (forall|k: int| 0 <= k < roots.len() ==> !holds(#[trigger] roots[k])) ==> root
                == roots[0]
            &&& roots_but(roots, Some(root)) == roots.filter(|other: u64| other != root)
            &&& roots_but(roots, None) == roots
        }),
{
    lemma_first_with_focus(workspace, roots, 0);
    lemma_roots_but(roots, Some(replaced_root(workspace, roots)));
    lemma_roots_but(roots, None);
    if let Some(root) = first_with_focus(workspace, roots, 0) {
        assert(has_focus(workspace, root));
        let k = choose|k: int| 0 <= k < roots.len() && roots[k] == root;
        assert(roots[k] == root);
    } else {
        assert forall|k: int| 0 <= k < roots.len() implies !has_focus(
            workspace,
            #[trigger] roots[k],
        ) by {}
        assert(roots.contains(roots[0]));
    }
}

proof fn lemma_roots_but(roots: Seq<u64>, skipped: Option<u64>)
    ensures
        skipped matches Some(root) ==> roots_but(roots, skipped) == roots.filter(
            |other: u64| other != root,
        ),
        skipped is None ==> roots_but(roots, skipped) == roots,
    decreases roots.len(),
{
    reveal(Seq::filter);
    if roots.len() > 0 {
        lemma_roots_but(roots.drop_last(), skipped);
        assert(roots.drop_last().push(roots.last()) =~= roots);
    }
}

/// To remove the panes with given keys is to close exactly the spaces that views use under one of
/// them, highest number first, none of them a main area or a status bar. The focus stays where it
/// still can be.
pub proof fn law_panes_with_the_keys_are_removed(
    before: WorkspaceModel,
    after: WorkspaceModel,
    said: Seq<Exchange>,
    keys: Seq<String>,
    spaces: Seq<SpaceId>,
    scene: SceneModel,
    space: SpaceId,
)
    requires
        panes_removed(before, after, said, keys, spaces, scene),
    ensures
        spaces.contains(space) <==> exists|id: u64, k: int|
            #![trigger before.views[id], keys[k]]
            before.views.contains_key(id) && 0 <= k < keys.len()
                && before.views[id].panes.contains_key(space) && before.views[id].panes[space]
                == keys[k]@,
        said.len() >= spaces.len(),
        forall|k: int|
            0 <= k < spaces.len() ==> (#[trigger] said[k]).request == (SceneRequest::Close {
                space: spaces[k],
            }),
        forall|a: int, b: int|
            0 <= a < b < spaces.len() ==> (#[trigger] spaces[a]).0 > (#[trigger] spaces[b]).0,
        focusable_at(scene.nodes, before.focused) == Some(true) ==> after.focused
            == before.focused,
{
    assert(requests_of(said).len() == said.len());
    assert forall|k: int| 0 <= k < spaces.len() implies (#[trigger] said[k]).request == (
    SceneRequest::Close { space: spaces[k] }) by {
        assert(requests_of(said)[k] == said[k].request);
        assert(close_requests(spaces)[k] == (SceneRequest::Close { space: spaces[k] }));
    }
    law_preferred_focus(scene.nodes, before.focused, before.focused);
    let keyed = is_keyed(before, keys, space);
    assert(spaces.contains(space) <==> keyed);
    if keyed {
        let id = choose|id: u64| #[trigger]
            before.views.contains_key(id) && before.views[id].panes.contains_key(space) && among(
                keys,
                before.views[id].panes[space],
            );
        let k = choose|k: int|
            0 <= k < keys.len() && (#[trigger] keys[k])@ == before.views[id].panes[space];
        assert(before.views[id].panes[space] == keys[k]@);
    }
}

proof fn lemma_first_reserved(workspace: WorkspaceModel, spaces: Seq<SpaceId>, i: int, k: int)
    requires
        0 <= i <= k < spaces.len(),
        first_reserved(workspace, spaces, i) is None,
    ensures
        !reserved_at(workspace, spaces[k]),
    decreases k - i,
{
    if i < k {
        lemma_first_reserved(workspace, spaces, i + 1, k);
    }
}

/// No main area and no status bar is ever removed as a pane of an extension.
pub proof fn law_reserved_panes_are_not_removed(
    before: WorkspaceModel,
    after: WorkspaceModel,
    said: Seq<Exchange>,
    keys: Seq<String>,
    spaces: Seq<SpaceId>,
    scene: SceneModel,
    k: int,
    view: ViewId,
)
    requires
        panes_removed(before, after, said, keys, spaces, scene),
        0 <= k < spaces.len(),
        view_at(before.nodes, spaces[k]) == Some(view),
    ensures
        key_for(before.views[view.0].panes, spaces[k]) != Some("body"@),
        key_for(before.views[view.0].panes, spaces[k]) != Some("builtin.status"@),
{
    lemma_first_reserved(before, spaces, 0, k);
}

/// A view has a status bar where there is one for it, and that shows a view with a document.
pub proof fn law_status_bar_is_found(
    workspace: WorkspaceModel,
    editor: u64,
    space: SpaceId,
    shown: ViewId,
    content: ContentId,
)
    requires
        workspace.views.contains_key(editor),
        workspace.placement is Global ==> workspace.global_status == Some(space),
        workspace.placement is PerPane ==> workspace.status_by_editor.contains_key(editor)
            && workspace.status_by_editor[editor] == space,
        view_at(workspace.nodes, space) == Some(shown),
        workspace.views.contains_key(shown.0),
        content_of(workspace.views[shown.0].bindings, "document"@) == Some(content),
    ensures
        status_bar(workspace, editor) is Some,
        status_bar(workspace, editor)->0.space == space,
        status_bar(workspace, editor)->0.target_view == shown,
        status_bar(workspace, editor)->0.content == content,
{
}

/// What is part of a view is listed with the view first; parts without parts of their own follow in
/// their order.
pub proof fn law_parts_are_listed_in_order(views: Map<u64, ViewModel>, root: u64)
    requires
        views.contains_key(root),
        subtree(views, root) is Ok,
        forall|i: int|
            0 <= i < views[root].children.len() ==> views[(
            #[trigger] views[root].children[i]).0].children.len() == 0,
    ensures
        subtree(views, root)->Ok_0 == seq![root] + numbers_of(views[root].children),
{
    let children = numbers_of(views[root].children);
    let rest = seq![root].drop_last() + children.reverse();
    assert(rest =~= children.reverse());
    assert(Seq::<u64>::empty().push(root) =~= seq![root]);
    assert forall|i: int| 0 <= i < children.len() implies views[
    #[trigger] children[i]].children.len() == 0 by {
        assert(views[views[root].children[i].0].children.len() == 0);
    }
    assert(children.take(0) =~= Seq::<u64>::empty());
    assert(seq![root] + children.take(0) =~= seq![root]);
    assert(children.skip(0) =~= children);
    lemma_listed_leaves(views, root, children, 0, views.dom().len());
}

proof fn lemma_listed_leaves(
    views: Map<u64, ViewModel>,
    root: u64,
    children: Seq<u64>,
    done: int,
    steps: nat,
)
    requires
        0 <= done <= children.len(),
        forall|i: int|
            0 <= i < children.len() ==> views[#[trigger] children[i]].children.len() == 0,
        listed(views, children.skip(done).reverse(), seq![root] + children.take(done), steps) is Ok,
    ensures
        listed(
            views,
            children.skip(done).reverse(),
            seq![root] + children.take(done),
            steps,
        )->Ok_0 == seq![root] + children,
    decreases children.len() - done,
{
    let stack = children.skip(done).reverse();
    if done < children.len() {
        assert(stack.last() == children[done]);
        assert(views[children[done]].children.len() == 0);
        assert(numbers_of(views[children[done]].children).reverse() =~= Seq::<u64>::empty());
        assert(stack.drop_last() + numbers_of(views[children[done]].children).reverse()
            =~= children.skip(done + 1).reverse());
        assert((seq![root] + children.take(done)).push(children[done]) =~= seq![root]
            + children.take(done + 1));
        lemma_listed_leaves(views, root, children, done + 1, (steps - 1) as nat);
    } else {
        assert(children.take(done) =~= children);
        assert(stack.len() == 0);
    }
}

/// In a sound workspace the focus is on a leaf that can have it, every leaf shows a view that uses
/// its space, no space is shown twice, and every space that a view uses shows that view.
pub proof fn law_sound_workspace_shows_its_views(
    workspace: WorkspaceModel,
    i: int,
    j: int,
    id: u64,
    space: SpaceId,
)
    requires
        workspace_sound(workspace),
    ensures
        focusable_at(workspace.nodes, workspace.focused) == Some(true),
        0 <= i < leaves(workspace.nodes).len() ==> {
            let leaf = leaves(workspace.nodes)[i];
            &&& workspace.views.contains_key(leaf.view.0)
            &&& workspace.views[leaf.view.0].panes.contains_key(leaf.space)
        },
        0 <= i < j < leaves(workspace.nodes).len() ==> leaves(workspace.nodes)[i].space != leaves(
            workspace.nodes,
        )[j].space,
        workspace.views.contains_key(id) && workspace.views[id].panes.contains_key(space)
            ==> view_at(workspace.nodes, space) == Some(ViewId(id)),
{
    assert(workspace.views.contains_key(id) ==> view_agrees(workspace, id));
}

/// In a sound workspace parts and what they are part of agree with each other, and a diff shows its
/// two sides in two buffers that cannot be switched by themselves.
pub proof fn law_sound_workspace_has_its_families(
    workspace: WorkspaceModel,
    id: u64,
    i: int,
    j: int,
)
    requires
        workspace_sound(workspace),
        workspace.views.contains_key(id),
    ensures
        ({
            let views = workspace.views;
            let view = views[id];
            &&& view.parent matches Some(parent) ==> views.contains_key(parent.0)
                && views[parent.0].children.contains(ViewId(id))
            &&& 0 <= i < view.children.len() ==> views.contains_key(view.children[i].0)
                && views[view.children[i].0].parent == Some(ViewId(id))
            &&& 0 <= i < j < view.children.len() ==> view.children[i] != view.children[j]
            &&& view.parent != Some(ViewId(id))
            &&& view.definition == "core.diff"@ ==> {
                let left = views[view.children[0].0];
                let right = views[view.children[1].0];
                &&& view.switchable
                &&& view.children.len() == 2
                &&& space_for(view.panes, "body"@) is None
                &&& space_for(view.panes, "builtin.status"@) is None
                &&& left.definition == "core.buffer"@ && right.definition == "core.buffer"@
                &&& !left.switchable && !right.switchable
                &&& content_of(left.bindings, "document"@) == content_of(view.bindings, "left"@)
                &&& content_of(right.bindings, "document"@) == content_of(view.bindings, "right"@)
            }
        }),
{
    assert(view_agrees(workspace, id));
    assert(family_agrees(workspace.views, id));
    let view = workspace.views[id];
    if 0 <= i < view.children.len() {
        assert(is_child_of(workspace.views, view.children[i], id));
    }
    if view.parent == Some(ViewId(id)) {
        assert(rooted(workspace.views, id));
        lemma_no_loop(workspace.views, id, workspace.views.dom().len());
    }
}

proof fn lemma_no_loop(views: Map<u64, ViewModel>, id: u64, steps: nat)
    requires
        views[id].parent == Some(ViewId(id)),
    ensures
        !rooted_within(views, id, steps),
    decreases steps,
{
    if steps > 0 {
        lemma_no_loop(views, id, (steps - 1) as nat);
    }
}

/// In a sound workspace one view has the one status bar, or each has the one that is kept for it.
pub proof fn law_sound_workspace_has_its_status_bars(
    workspace: WorkspaceModel,
    id: u64,
    other: u64,
)
    requires
        workspace_sound(workspace),
        workspace.views.contains_key(id),
        workspace.views.contains_key(other),
    ensures
        workspace.placement is Global ==> {
            &&& workspace.global_status is Some
            &&& !workspace.status_by_editor.contains_key(id)
            &&& space_for(workspace.views[id].panes, "builtin.status"@) matches Some(space)
                ==> workspace.global_status == Some(space) && (other != id ==> space_for(
                workspace.views[other].panes,
                "builtin.status"@,
            ) is None)
        },
        workspace.placement is PerPane ==> {
            &&& workspace.global_status is None
            &&& workspace.status_by_editor.contains_key(id) ==> space_for(
                workspace.views[id].panes,
                "builtin.status"@,
            ) == Some(workspace.status_by_editor[id])
            &&& !workspace.status_by_editor.contains_key(id) ==> space_for(
                workspace.views[id].panes,
                "builtin.status"@,
            ) is None
        },
{
    if workspace.placement is Global {
        let space = workspace.global_status->0;
        let sole = choose|sole: u64| #[trigger] is_sole_status(workspace.views, space, sole);
        assert(is_sole_status(workspace.views, space, sole));
        assert(status_of(workspace.views[id]) is Some ==> id == sole);
        assert(!workspace.status_by_editor.dom().contains(id));
    }
}

/// The views that are closed have no status bar any more, and those that stay have the ones that
/// they had.
pub proof fn law_closed_views_lose_their_bars(
    before: WorkspaceModel,
    after: WorkspaceModel,
    said: Seq<Exchange>,
    root: u64,
    target: SpaceId,
    neighbor: Option<SpaceId>,
    spaces: Seq<SpaceId>,
    scene: SceneModel,
    id: u64,
)
    requires
        was_closed(before, after, said, root, target, neighbor, spaces, scene),
    ensures
        whole_of(before, root).contains(id) ==> !after.status_by_editor.contains_key(id)
            && !after.views.contains_key(id),
        !whole_of(before, root).contains(id) ==> {
            &&& after.status_by_editor.contains_key(id) == before.status_by_editor.contains_key(id)
            &&& before.status_by_editor.contains_key(id) ==> after.status_by_editor[id]
                == before.status_by_editor[id]
            &&& after.views.contains_key(id) == before.views.contains_key(id)
        },
        after.placement == before.placement,
        after.global_status == before.global_status,
{
    reveal(was_closed);
    let list = whole_of(before, root);
    assert(list.to_set().contains(id) == list.contains(id));
    assert(after.views.dom().contains(id) <==> before.views.dom().contains(id)
        && !list.to_set().contains(id));
}

/// The same of views that are replaced; the new one takes over the bar that was in its place.
pub proof fn law_replaced_views_lose_their_bars(
    before: WorkspaceModel,
    after: WorkspaceModel,
    said: Seq<Exchange>,
    root: u64,
    target: SpaceId,
    view: ViewModel,
    focusable: bool,
    spaces: Seq<SpaceId>,
    scene: SceneModel,
    id: u64,
    bar: SpaceId,
)
    requires
        was_replaced(before, after, said, root, target, view, focusable, spaces, scene),
        id != before.next_view_id,
    ensures
        whole_of(before, root).contains(id) ==> !after.status_by_editor.contains_key(id)
            && !after.views.contains_key(id),
        !whole_of(before, root).contains(id) ==> {
            &&& after.status_by_editor.contains_key(id) == before.status_by_editor.contains_key(id)
            &&& before.status_by_editor.contains_key(id) ==> after.status_by_editor[id]
                == before.status_by_editor[id]
            &&& after.views.contains_key(id) == before.views.contains_key(id)
        },
        before.placement is PerPane && own_status(before, target) == Some(bar) ==> key_for(
            after.views[before.next_view_id].panes,
            bar,
        ) == Some("builtin.status"@),
        after.placement == before.placement,
        after.global_status == before.global_status,
{
    reveal(was_replaced);
    let list = whole_of(before, root);
    assert(list.to_set().contains(id) == list.contains(id));
    assert(after.views.dom().contains(id) <==> before.views.dom().contains(id)
        && !list.to_set().contains(id));
}

} // verus!
