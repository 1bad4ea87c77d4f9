//! Compound views of a workspace.

use crate::protocol::{ContentId, SpaceId, ViewId};
use crate::text::same_text;
use crate::view::bindings::content_of;
use crate::view::compound::{
    link_index, linked_child, links_of, CompoundModel, CompoundViewDefinition, LinkModel,
    ViewChildDefinition,
};
use crate::view::content_state::{ContentViewState, SelectionsModel};
use crate::view::definition::{BindingKey, ViewDefinitionId};
use crate::view::instance::{rebind_fault, rebound_view, View, ViewModel};
use crate::view::layout::{LayoutError, WorkspaceFault};
use crate::view::scene::{Exchange, SceneBuilder, SceneModel, SplitDirection};
use crate::view::soundness::{workspace_sound, WorkspaceModel};
use crate::view::workspace::family::{
    broken_link, can_count, child_fault, child_of, compose_refusal, composed, compound_fault,
    lemma_rebound_view_sound, tells_compound_fault, would_be_unsound,
};
use crate::view::workspace::changes::{split_refuses, was_split, SplitOutcome};
use crate::view::workspace::closing::{cannot_replace, part_of, replace_refusal, was_replaced};
use crate::view::workspace::outcomes::law_replacement_is_shown_in_place;
use crate::view::workspace::queries::subtree_root;
use crate::view::workspace::removal::were_removed;
use crate::view::workspace::steps::{added, with_view};
use crate::view::workspace::{
    entry_mut, group_talk, lemma_may_say_later, lemma_nothing_said_yet, lemma_said, ViewWorkspace,
    WorkspaceMutation,
};
use vstd::prelude::*;
use vstd::string::StringExecFns;
use vstd::view::View as _;

verus! {

broadcast use {vstd::std_specs::hash::group_hash_axioms, group_talk};

/// The children of a compound view that is in order.
pub open spec fn are_children(
    views: Map<u64, ViewModel>,
    parent: ViewId,
    children: [ViewId; 2],
) -> bool {
    views[parent.0].children == seq![children@[0], children@[1]]
}

/// The workspace once a role of a compound view, and the role of its child that takes its content
/// from it, are bound to another content.
pub open spec fn compound_rebound(
    workspace: WorkspaceModel,
    parent: ViewId,
    compound: CompoundModel,
    role: Seq<char>,
    content: ContentId,
    state: Option<SelectionsModel>,
) -> WorkspaceModel {
    let (index, child_role) = linked_child(compound, role)->0;
    let child = workspace.views[parent.0].children[index];
    let middle = with_view(
        workspace,
        parent.0,
        rebound_view(workspace.views[parent.0], role, content, None),
    );
    with_view(middle, child.0, rebound_view(middle.views[child.0], child_role, content, Some(state)))
}

/// The error says why a role of a compound view that is in order, and the role that takes its
/// content from it, cannot be bound to another content.
pub open spec fn rebind_refusal(
    error: LayoutError,
    workspace: WorkspaceModel,
    parent: ViewId,
    compound: CompoundModel,
    role: Seq<char>,
    content: ContentId,
    state: Option<SelectionsModel>,
) -> bool {
    let view = workspace.views[parent.0];
    match (linked_child(compound, role), content_of(view.bindings, role)) {
        (Some((index, child_role)), Some(previous)) => {
            let child = workspace.views[view.children[index].0];
            let after = compound_rebound(workspace, parent, compound, role, content, state);
            &&& previous != content
            &&& match (rebind_fault(view, role, false), rebind_fault(child, child_role, true)) {
                (Some(fault), _) => fault is DocumentStateMismatch && error
                    == LayoutError::InvalidWorkspace(WorkspaceFault::DocumentStateMismatch),
                (None, Some(fault)) => fault is DocumentStateMismatch && error
                    == LayoutError::InvalidWorkspace(WorkspaceFault::DocumentStateMismatch),
                (None, None) => if workspace_sound(after) {
                    compound_fault(after.views, parent, compound) matches Some(fault)
                        && tells_compound_fault(error, after.views, parent, compound, fault)
                } else {
                    would_be_unsound(after, error)
                },
            }
        },
        _ => error matches LayoutError::MissingBinding { view: told, binding } && told == parent
            && binding.name() == role,
    }
}

/// A role of a child that takes its content from its parent is bound to the same content.
pub proof fn law_linked_roles_share_their_content(
    views: Map<u64, ViewModel>,
    parent: ViewId,
    compound: CompoundModel,
    role: Seq<char>,
)
    requires
        compound_fault(views, parent, compound) is None,
        linked_child(compound, role) is Some,
    ensures
        ({
            let (index, child_role) = linked_child(compound, role)->0;
            content_of(views[views[parent.0].children[index].0].bindings, child_role)
                == content_of(views[parent.0].bindings, role)
        }),
{
    let (index, child_role) = linked_child(compound, role)->0;
    let links = child_of(compound, index).links;
    lemma_link_found(links, role, 0);
    let k = link_index(links, role, 0)->0;
    lemma_links_hold(
        views[parent.0],
        views[views[parent.0].children[index].0],
        links,
        0,
        k,
    );
}

proof fn lemma_link_found(links: Seq<LinkModel>, role: Seq<char>, i: int)
    requires
        0 <= i,
    ensures
        link_index(links, role, i) matches Some(k) ==> i <= k < links.len() && links[k].parent
            == role,
    decreases links.len() - i,
{
    if i < links.len() && links[i].parent != role {
        lemma_link_found(links, role, i + 1);
    }
}

proof fn lemma_links_hold(
    parent: ViewModel,
    child: ViewModel,
    links: Seq<LinkModel>,
    i: int,
    k: int,
)
    requires
        broken_link(parent, child, links, i) is None,
        0 <= i <= k < links.len(),
    ensures
        content_of(child.bindings, links[k].child) == content_of(
            parent.bindings,
            links[k].parent,
        ),
    decreases links.len() - i,
{
    if i < k {
        lemma_links_hold(parent, child, links, i + 1, k);
    }
}

/// What came of putting a compound view in the place of what a space shows: its parts and their
/// parent.
pub struct CompoundViewResult {
    pub parent: ViewId,
    pub children: [ViewId; 2],
}

/// The workspaces that lie between, once the first child has come in the place of what was there
/// and once the second one is next to it, and what a builder gave on the way.
pub struct CompoundSteps {
    pub replaced: WorkspaceModel,
    pub split: WorkspaceModel,
    pub spaces: Seq<SpaceId>,
    pub scene: SceneModel,
    pub outcome: SplitOutcome,
    pub first: Seq<Exchange>,
    pub second: Seq<Exchange>,
}

/// The children of a new compound view: none of them can be switched on its own.
pub open spec fn compound_children(first: u64, second: u64) -> Seq<(ViewId, bool)> {
    seq![(ViewId(first), false), (ViewId(second), false)]
}

/// A compound view has come in the place of what a space shows.
pub open spec fn was_compounded(
    before: WorkspaceModel,
    after: WorkspaceModel,
    said: Seq<Exchange>,
    target: SpaceId,
    parent: ViewModel,
    first: ViewModel,
    second: ViewModel,
    direction: SplitDirection,
    steps: CompoundSteps,
) -> bool {
    let with_parent = added(steps.split, parent);
    let id = ViewId(steps.split.next_view_id);
    let children = compound_children(before.next_view_id, steps.replaced.next_view_id);
    &&& was_replaced(
        before,
        steps.replaced,
        steps.first,
        subtree_root(before, target),
        target,
        first,
        true,
        steps.spaces,
        steps.scene,
    )
    &&& was_split(
        steps.replaced,
        steps.split,
        steps.second,
        target,
        second,
        true,
        direction,
        false,
        steps.outcome,
    )
    &&& compose_refusal(with_parent.views, id, children) is None
    &&& after == with_compound(before, parent, steps)
    &&& said == steps.first + steps.second
}

/// The workspace with a compound view, its parts in place.
pub open spec fn with_compound(
    before: WorkspaceModel,
    parent: ViewModel,
    steps: CompoundSteps,
) -> WorkspaceModel {
    let with_parent = added(steps.split, parent);
    let children = compound_children(before.next_view_id, steps.replaced.next_view_id);
    WorkspaceModel {
        views: composed(with_parent.views, ViewId(steps.split.next_view_id), children),
        scene_revision: (before.scene_revision + 1) as u64,
        ..with_parent
    }
}

/// The error says why a compound view cannot come in the place of what a space shows, once its
/// first part has, with what was said to the builder for it.
pub open spec fn compound_refuses(
    before: WorkspaceModel,
    target: SpaceId,
    parent: ViewModel,
    first: ViewModel,
    second: ViewModel,
    direction: SplitDirection,
    steps: CompoundSteps,
    said: Seq<Exchange>,
    error: LayoutError,
) -> bool {
    &&& said == steps.first + steps.second
    &&& was_replaced(
        before,
        steps.replaced,
        steps.first,
        subtree_root(before, target),
        target,
        first,
        true,
        steps.spaces,
        steps.scene,
    )
    &&& split_refuses(
        steps.replaced,
        target,
        second,
        true,
        direction,
        false,
        steps.second,
        error,
    ) || (was_split(
        steps.replaced,
        steps.split,
        steps.second,
        target,
        second,
        true,
        direction,
        false,
        steps.outcome,
    ) && match compose_refusal(
        added(steps.split, parent).views,
        ViewId(steps.split.next_view_id),
        compound_children(before.next_view_id, steps.replaced.next_view_id),
    ) {
        Some(refusal) => error == refusal,
        None => would_be_unsound(with_compound(before, parent, steps), error),
    })
}

impl<B: SceneBuilder> ViewWorkspace<B> {
    /// Checks one child of a compound view.
    fn check_compound_child(
        &self,
        parent: ViewId,
        parent_view: &View,
        index: usize,
        child: ViewId,
        child_definition: &ViewChildDefinition,
        id: &ViewDefinitionId,
        compound: &CompoundViewDefinition,
    ) -> (result: Result<(), LayoutError>)
        requires
            index < 2,
            self.model().views.contains_key(parent.0),
            self.model().views[parent.0] == parent_view.model(),
            parent_view.model().children.len() == 2,
            parent_view.model().children[index as int] == child,
            child_definition.model() == child_of(compound.model(), index as int),
            id.name() == compound.model().definition.id,
        ensures
            match result {
                Ok(_) => child_fault(
                    self.model().views,
                    parent,
                    index as int,
                    child_definition.model(),
                ) is None,
                Err(error) => child_fault(
                    self.model().views,
                    parent,
                    index as int,
                    child_definition.model(),
                ) is Some && tells_compound_fault(
                    error,
                    self.model().views,
                    parent,
                    compound.model(),
                    child_fault(
                        self.model().views,
                        parent,
                        index as int,
                        child_definition.model(),
                    )->0,
                ),
            },
    {
        let child_view = match self.view(child) {
            Some(child_view) => child_view,
            None => {
                return Err(LayoutError::MissingView(child));
            },
        };
        if !same_text(child_view.definition().as_str(), child_definition.definition().as_str())
            || child_view.switchable() || child_view.parent() != Some(parent) {
            return Err(
                LayoutError::InvalidWorkspace(
                    WorkspaceFault::CompoundChildIdentity {
                        definition: id.clone(),
                        child: String::from_str(child_definition.key()),
                    },
                ),
            );
        }
        let bindings = child_definition.bindings();
        let ghost links = links_of(bindings@);
        let mut i: usize = 0;
        while i < bindings.len()
            invariant
                i <= bindings.len(),
                index < 2,
                links == links_of(bindings@),
                links == child_definition.model().links,
                child_definition.model() == child_of(compound.model(), index as int),
                id.name() == compound.model().definition.id,
                self.model().views.contains_key(parent.0),
                self.model().views[parent.0] == parent_view.model(),
                self.model().views.contains_key(child.0),
                self.model().views[child.0] == child_view.model(),
                parent_view.model().children[index as int] == child,
                child_view.model().definition == child_definition.model().definition,
                !child_view.model().switchable,
                child_view.model().parent == Some(parent),
                broken_link(parent_view.model(), child_view.model(), links, 0) == broken_link(
                    parent_view.model(),
                    child_view.model(),
                    links,
                    i as int,
                ),
            decreases bindings.len() - i,
        {
            let binding = &bindings[i];
            assert(links[i as int] == binding.model());
            if child_view.binding(binding.child().as_str()) != parent_view.binding(
                binding.parent().as_str(),
            ) {
                return Err(
                    LayoutError::InvalidWorkspace(
                        WorkspaceFault::CompoundChildBinding {
                            definition: id.clone(),
                            child: String::from_str(child_definition.key()),
                            child_binding: binding.child().clone(),
                            parent_binding: binding.parent().clone(),
                        },
                    ),
                );
            }
            i = i + 1;
        }
        Ok(())
    }

    /// Checks a compound view and hands out its children.
    pub fn validate_compound_view(&self, parent: ViewId, definition: &CompoundViewDefinition) -> (result:
        Result<[ViewId; 2], LayoutError>)
        ensures
            match result {
                Ok(children) => {
                    &&& compound_fault(self.model().views, parent, definition.model()) is None
                    &&& are_children(self.model().views, parent, children)
                },
                Err(error) => compound_fault(
                    self.model().views,
                    parent,
                    definition.model(),
                ) is Some && tells_compound_fault(
                    error,
                    self.model().views,
                    parent,
                    definition.model(),
                    compound_fault(self.model().views, parent, definition.model())->0,
                ),
            },
    {
        let parent_view = match self.view(parent) {
            Some(parent_view) => parent_view,
            None => {
                return Err(LayoutError::MissingView(parent));
            },
        };
        let owned = parent_view.children();
        if owned.len() != 2 {
            return Err(LayoutError::InvalidWorkspace(WorkspaceFault::CompoundChildCount(parent)));
        }
        let children = [owned[0], owned[1]];
        let id = definition.definition().id();
        if !same_text(parent_view.definition().as_str(), id.as_str()) || !parent_view.switchable() {
            return Err(LayoutError::InvalidWorkspace(WorkspaceFault::CompoundRoot(id.clone())));
        }
        match self.check_compound_child(
            parent,
            parent_view,
            0,
            children[0],
            definition.first(),
            id,
            definition,
        ) {
            Ok(_) => {},
            Err(error) => {
                return Err(error);
            },
        }
        match self.check_compound_child(
            parent,
            parent_view,
            1,
            children[1],
            definition.second(),
            id,
            definition,
        ) {
            Ok(_) => {},
            Err(error) => {
                return Err(error);
            },
        }
        assert(parent_view.model().children =~= seq![children@[0], children@[1]]);
        Ok(children)
    }

    /// Checks a compound view that has just been made: it shows nothing itself.
    pub fn validate_new_compound_view(
        &self,
        parent: ViewId,
        definition: &CompoundViewDefinition,
    ) -> (result: Result<[ViewId; 2], LayoutError>)
        ensures
            match result {
                Ok(children) => {
                    &&& compound_fault(self.model().views, parent, definition.model()) is None
                    &&& are_children(self.model().views, parent, children)
                    &&& self.model().views[parent.0].panes.dom().is_empty()
                },
                Err(error) => match compound_fault(
                    self.model().views,
                    parent,
                    definition.model(),
                ) {
                    Some(fault) => tells_compound_fault(
                        error,
                        self.model().views,
                        parent,
                        definition.model(),
                        fault,
                    ),
                    None => !self.model().views[parent.0].panes.dom().is_empty() && (
                    error matches LayoutError::InvalidWorkspace(
                        WorkspaceFault::CompoundOwnsPane(id),
                    ) && id.name() == definition.model().definition.id),
                },
            },
    {
        let children = match self.validate_compound_view(parent, definition) {
            Ok(children) => children,
            Err(error) => {
                return Err(error);
            },
        };
        let owns_pane = match self.view(parent) {
            Some(data) => {
                let spaces = data.panes().spaces();
                let ghost panes = data.model().panes;
                proof {
                    if spaces@.len() > 0 {
                        assert(spaces@.contains(spaces@[0]));
                        assert(panes.dom().contains(spaces@[0]));
                    } else {
                        assert forall|space: SpaceId| !panes.dom().contains(
                            space,
                        ) by {
                            assert(!spaces@.contains(space));
                            assert(!panes.contains_key(space));
                        }
                        assert(panes.dom() =~= Set::empty());
                    }
                }
                spaces.len() > 0
            },
            None => false,
        };
        if owns_pane {
            return Err(
                LayoutError::InvalidWorkspace(
                    WorkspaceFault::CompoundOwnsPane(definition.definition().id().clone()),
                ),
            );
        }
        Ok(children)
    }

    /// Binds a role of a compound view, and the role of the child that takes its content from it,
    /// to another content.
    pub fn rebind_compound_binding(
        &mut self,
        parent: ViewId,
        definition: &CompoundViewDefinition,
        binding: &BindingKey,
        content: ContentId,
        state: ContentViewState,
    ) -> (result: Result<(ContentId, ViewId), LayoutError>)
        requires
            old(self).valid(),
            can_count(old(self).model(), parent),
            old(self).model().views.contains_key(parent.0) ==> forall|i: int|
                0 <= i < old(self).model().views[parent.0].children.len() ==> can_count(
                    old(self).model(),
                    #[trigger] old(self).model().views[parent.0].children[i],
                ),
        ensures
            final(self).talk() == old(self).talk(),
            old(self).went_on(*final(self)),
            ({
                let before = old(self).model();
                let views = before.views;
                let compound = definition.model();
                let after = compound_rebound(
                    before,
                    parent,
                    compound,
                    binding.name(),
                    content,
                    state.model(),
                );
                match result {
                    Ok((previous, child)) => {
                        &&& compound_fault(views, parent, compound) is None
                        &&& linked_child(compound, binding.name()) matches Some((index, _))
                            && views[parent.0].children[index] == child
                        &&& content_of(views[parent.0].bindings, binding.name()) == Some(previous)
                        &&& final(self).valid()
                        &&& if previous == content {
                            final(self).model() == before
                        } else {
                            final(self).model() == after && compound_fault(
                                after.views,
                                parent,
                                compound,
                            ) is None
                        }
                    },
                    Err(error) => {
                        &&& *final(self) == *old(self)
                        &&& match compound_fault(views, parent, compound) {
                            Some(fault) => tells_compound_fault(
                                error,
                                views,
                                parent,
                                compound,
                                fault,
                            ),
                            None => rebind_refusal(
                                error,
                                before,
                                parent,
                                compound,
                                binding.name(),
                                content,
                                state.model(),
                            ),
                        }
                    },
                }
            }),
    {
        let ghost before = self.model();
        let ghost compound = definition.model();
        let children = match self.validate_compound_view(parent, definition) {
            Ok(children) => children,
            Err(error) => {
                return Err(error);
            },
        };
        let (index, child_binding) = match definition.child_binding_for_parent(binding) {
            Some(link) => link,
            None => {
                return Err(LayoutError::MissingBinding { view: parent, binding: binding.clone() });
            },
        };
        let child = if index == 0 {
            children[0]
        } else {
            children[1]
        };
        let bound = match self.view(parent) {
            Some(data) => data.binding(binding.as_str()),
            None => None,
        };
        let previous = match bound {
            Some(previous) => previous,
            None => {
                return Err(LayoutError::MissingBinding { view: parent, binding: binding.clone() });
            },
        };
        if previous == content {
            return Ok((previous, child));
        }
        proof {
            law_linked_roles_share_their_content(before.views, parent, compound, binding.name());
        }
        let mut draft = self.draft();
        let ghost start = draft;
        assert(can_count(before, parent));
        match entry_mut(&mut draft.views, parent.0) {
            Some(data) => match data.rebind(binding, content, None) {
                Ok(_) => {},
                Err(_) => {
                    return Err(LayoutError::InvalidWorkspace(WorkspaceFault::DocumentStateMismatch));
                },
            },
            None => {
                return Err(LayoutError::MissingView(parent));
            },
        }
        let ghost middle = with_view(
            before,
            parent.0,
            rebound_view(before.views[parent.0], binding.name(), content, None),
        );
        proof {
            assert(draft.model().views =~= middle.views);
            assert(draft.model() =~= middle);
            assert(before.views.contains_key(parent.0));
            lemma_rebound_view_sound(
                before.views[parent.0],
                binding.name(),
                content,
                None,
            );
            assert(before.views[parent.0].children[index as int] == child);
            assert(child != parent) by {
                assert(child_fault(before.views, parent, 0, compound.first) is None);
                assert(before.views[parent.0].switchable);
            }
        }
        match entry_mut(&mut draft.views, child.0) {
            Some(data) => match data.rebind(child_binding, content, Some(state)) {
                Ok(_) => {},
                Err(_) => {
                    return Err(LayoutError::InvalidWorkspace(WorkspaceFault::DocumentStateMismatch));
                },
            },
            None => {
                return Err(LayoutError::MissingView(child));
            },
        }
        proof {
            let after = compound_rebound(
                before,
                parent,
                compound,
                binding.name(),
                content,
                state.model(),
            );
            assert(start.went_on(draft));
            assert(draft.model().views =~= after.views);
            assert(draft.model() =~= after);
            assert(middle.views.contains_key(child.0));
            assert(before.views.contains_key(child.0));
            lemma_rebound_view_sound(
                middle.views[child.0],
                child_binding.name(),
                content,
                Some(state.model()),
            );
            assert(draft.model().views.dom() =~= draft.views@.dom());
        }
        match draft.validate() {
            Ok(_) => {},
            Err(error) => {
                return Err(error);
            },
        }
        match draft.validate_compound_view(parent, definition) {
            Ok(_) => {},
            Err(error) => {
                return Err(error);
            },
        }
        *self = draft;
        Ok((previous, child))
    }

    /// Shows two new views, under a new parent, in the place of what a space shows.
    #[verifier::rlimit(60)]
    pub fn replace_with_compound(
        &mut self,
        target: SpaceId,
        parent: View,
        children: [View; 2],
        direction: SplitDirection,
    ) -> (result: Result<WorkspaceMutation<CompoundViewResult>, LayoutError>)
        requires
            old(self).valid(),
            old(self).model().scene_revision < u64::MAX - 2,
            old(self).model().next_view_id < u64::MAX - 2,
        ensures
            match result {
                Ok(mutation) => {
                    let next = old(self).model().next_view_id;
                    &&& replace_refusal(old(self).model(), target, true) is None
                    &&& mutation.output.children@[0].0 == next
                    &&& mutation.output.children@[1].0 == next + 1
                    &&& mutation.output.parent.0 == next + 2
                    &&& final(self).valid()
                    &&& were_removed(
                        mutation.removed@,
                        part_of(old(self).model(), target),
                        old(self).model().views,
                    )
                    &&& exists|steps: CompoundSteps| #[trigger]
                        was_compounded(
                            old(self).model(),
                            final(self).model(),
                            old(self).said(*final(self)),
                            target,
                            parent.model(),
                            children@[0].model(),
                            children@[1].model(),
                            direction,
                            steps,
                        )
                    &&& old(self).went_on(*final(self))
                },
                Err(error) => {
                    &&& *final(self) == *old(self)
                    &&& match replace_refusal(old(self).model(), target, true) {
                        Some(refusal) => error == refusal,
                        None => exists|said: Seq<Exchange>| #[trigger]
                            old(self).may_say(said) && (cannot_replace(
                                old(self).model(),
                                subtree_root(old(self).model(), target),
                                target,
                                children@[0].model(),
                                true,
                                said,
                                error,
                            ) || exists|steps: CompoundSteps| #[trigger]
                                compound_refuses(
                                    old(self).model(),
                                    target,
                                    parent.model(),
                                    children@[0].model(),
                                    children@[1].model(),
                                    direction,
                                    steps,
                                    said,
                                    error,
                                )),
                    }
                },
            },
    {
        let ghost before = self.model();
        let ghost root = subtree_root(before, target);
        let base_revision = self.scene_revision;
        let mut draft = self.draft();
        let ghost start = draft;
        let first_view = children[0].clone();
        let second_view = children[1].clone();
        let ghost first_model = first_view.model();
        let ghost second_model = second_view.model();
        proof {
            lemma_nothing_said_yet(*self, start);
        }
        let replacement = match draft.replace(target, first_view, true) {
            Ok(replacement) => replacement,
            Err(error) => {
                proof {
                    if replace_refusal(before, target, true) is None {
                        let said = choose|said: Seq<Exchange>| #[trigger]
                            start.may_say(said) && cannot_replace(
                                before,
                                root,
                                target,
                                first_model,
                                true,
                                said,
                                error,
                            );
                        lemma_may_say_later(*self, start, said);
                        assert(self.said(start) + said =~= said);
                        assert(self.may_say(said));
                    }
                }
                return Err(error);
            },
        };
        let first = replacement.output;
        let ghost replaced = draft.model();
        let ghost first_done = draft;
        let ghost first_said = start.said(draft);
        let ghost (spaces, scene) = choose|spaces: Seq<SpaceId>, scene: SceneModel| #[trigger]
            was_replaced(
                before,
                replaced,
                first_said,
                root,
                target,
                first_model,
                true,
                spaces,
                scene,
            );
        proof {
            lemma_said(*self, start, draft);
            assert(self.said(draft) =~= first_said);
            law_replacement_is_shown_in_place(
                before,
                replaced,
                first_said,
                root,
                target,
                first_model,
                true,
                spaces,
                scene,
            );
        }
        let first_space = match draft.body_space_for_view(first) {
            Some(space) => space,
            None => vstd::pervasive::unreached(),
        };
        let ghost parent_model = parent.model();
        let (second, _) = match draft.split(first_space, second_view, true, direction, false) {
            Ok(split) => split,
            Err(error) => {
                proof {
                    let said = choose|said: Seq<Exchange>| #[trigger]
                        first_done.may_say(said) && split_refuses(
                            replaced,
                            target,
                            second_model,
                            true,
                            direction,
                            false,
                            said,
                            error,
                        );
                    lemma_may_say_later(*self, first_done, said);
                    let steps = CompoundSteps {
                        replaced,
                        split: replaced,
                        spaces,
                        scene,
                        outcome: SplitOutcome { scene, new_space: target, status: None },
                        first: first_said,
                        second: said,
                    };
                    assert(compound_refuses(
                        before,
                        target,
                        parent_model,
                        first_model,
                        second_model,
                        direction,
                        steps,
                        first_said + said,
                        error,
                    ));
                }
                return Err(error);
            },
        };
        let ghost split = draft.model();
        let ghost second_said = first_done.said(draft);
        proof {
            lemma_said(*self, first_done, draft);
        }
        let ghost outcome = choose|outcome: SplitOutcome| #[trigger]
            was_split(
                replaced,
                split,
                second_said,
                target,
                second_model,
                true,
                direction,
                false,
                outcome,
            );
        let ghost steps = CompoundSteps {
            replaced,
            split,
            spaces,
            scene,
            outcome,
            first: first_said,
            second: second_said,
        };
        let parent_id = draft.add_view(parent);
        let mut family: Vec<(ViewId, bool)> = Vec::new();
        family.push((first, false));
        family.push((second, false));
        assert(family@ =~= compound_children(before.next_view_id, replaced.next_view_id));
        match draft.compose_in_place(parent_id, &family) {
            Ok(_) => {},
            Err(error) => {
                assert(compound_refuses(
                    before,
                    target,
                    parent_model,
                    first_model,
                    second_model,
                    direction,
                    steps,
                    self.said(draft),
                    error,
                ));
                return Err(error);
            },
        }
        let ghost here = draft.model();
        let ghost composed_here = draft;
        draft.scene_revision = base_revision;
        assert(draft.model() =~= (WorkspaceModel {
            scene_revision: before.scene_revision,
            ..here
        }));
        assert(composed_here.went_on(draft));
        draft.revise();
        match draft.validate() {
            Ok(_) => {},
            Err(error) => {
                assert(draft.model() =~= with_compound(before, parent_model, steps));
                assert(compound_refuses(
                    before,
                    target,
                    parent_model,
                    first_model,
                    second_model,
                    direction,
                    steps,
                    self.said(draft),
                    error,
                ));
                return Err(error);
            },
        }
        proof {
            assert(was_compounded(
                before,
                draft.model(),
                self.said(draft),
                target,
                parent_model,
                first_model,
                second_model,
                direction,
                steps,
            ));
        }
        *self = draft;
        Ok(
            WorkspaceMutation {
                output: CompoundViewResult { parent: parent_id, children: [first, second] },
                removed: replacement.removed,
            },
        )
    }
}

} // verus!
