//! Changes of a workspace that leave its scene alone: bindings, parents and children.

use crate::protocol::{ContentId, ViewId};
use crate::view::bindings::{
    content_of, law_rebinding_changes_one_role, BindingFault, ContentBindingError,
};
use crate::view::compound::{ChildModel, CompoundModel, LinkModel};
use crate::view::content_state::{ContentViewState, Selections, SelectionsModel};
use crate::view::definition::{BindingKey, DOCUMENT_BINDING};
use crate::view::forest::{rooted, rooted_within};
use crate::view::instance::{
    child_added, optional_state, rebind_fault, rebound_view, view_sound, ViewModel,
};
use crate::view::layout::{LayoutError, WorkspaceFault};
use crate::view::scene::{focusable_at, SceneBuilder, SceneSize};
use crate::view::soundness::{
    is_child_of, is_first_fault, is_sole_status, view_agrees, views_ready, workspace_sound,
    WorkspaceModel,
};
use crate::view::workspace::steps::{revised, with_view};
use crate::view::workspace::{entry_mut, group_talk, ViewWorkspace};
use vstd::prelude::*;
use vstd::string::StringExecFns;
use vstd::view::View as _;

verus! {

broadcast use {vstd::std_specs::hash::group_hash_axioms, group_talk};

/// The error says what is wrong with the workspace that would have come out.
pub open spec fn would_be_unsound(workspace: WorkspaceModel, error: LayoutError) -> bool {
    error matches LayoutError::InvalidWorkspace(fault) && is_first_fault(workspace, fault)
}

/// A view of the workspace can count another revision.
pub open spec fn can_count(workspace: WorkspaceModel, view: ViewId) -> bool {
    workspace.views.contains_key(view.0) ==> workspace.views[view.0].revision < u64::MAX
        && workspace.views[view.0].binding_revision < u64::MAX
}

/// The error says why a role cannot be bound to another content.
pub open spec fn tells_binding_fault(
    error: LayoutError,
    view: ViewId,
    fault: BindingFault,
) -> bool {
    match fault {
        BindingFault::Unknown(role) => error matches LayoutError::MissingBinding {
            view: told,
            binding,
        } && told == view && binding.name() == role,
        _ => error == LayoutError::InvalidWorkspace(WorkspaceFault::InvalidDocumentState(view)),
    }
}

/// What is wrong with a compound view, found in this order.
pub enum CompoundFault {
    MissingParent,
    ChildCount,
    Root,
    MissingChild(int),
    ChildIdentity(int),
    ChildBinding(int, int),
}

/// The first link, from index `i` on, whose roles are bound to different contents.
pub open spec fn broken_link(
    parent: ViewModel,
    child: ViewModel,
    links: Seq<LinkModel>,
    i: int,
) -> Option<int>
    decreases links.len() - i,
{
    if i >= links.len() {
        None
    } else if content_of(child.bindings, links[i].child) != content_of(
        parent.bindings,
        links[i].parent,
    ) {
        Some(i)
    } else {
        broken_link(parent, child, links, i + 1)
    }
}

/// What is wrong with a child of a compound view.
pub open spec fn child_fault(
    views: Map<u64, ViewModel>,
    parent: ViewId,
    index: int,
    definition: ChildModel,
) -> Option<CompoundFault> {
    let child = views[parent.0].children[index];
    if !views.contains_key(child.0) {
        Some(CompoundFault::MissingChild(index))
    } else if views[child.0].definition != definition.definition || views[child.0].switchable
        || views[child.0].parent != Some(parent) {
        Some(CompoundFault::ChildIdentity(index))
    } else {
        match broken_link(views[parent.0], views[child.0], definition.links, 0) {
            Some(i) => Some(CompoundFault::ChildBinding(index, i)),
            None => None,
        }
    }
}

/// What is wrong with a compound view, if anything: it is a switchable view of its definition
/// with two children of theirs, bound to the same contents.
pub open spec fn compound_fault(
    views: Map<u64, ViewModel>,
    parent: ViewId,
    compound: CompoundModel,
) -> Option<CompoundFault> {
    if !views.contains_key(parent.0) {
        Some(CompoundFault::MissingParent)
    } else if views[parent.0].children.len() != 2 {
        Some(CompoundFault::ChildCount)
    } else if views[parent.0].definition != compound.definition.id || !views[parent.0].switchable {
        Some(CompoundFault::Root)
    } else {
        match child_fault(views, parent, 0, compound.first) {
            Some(fault) => Some(fault),
            None => child_fault(views, parent, 1, compound.second),
        }
    }
}

/// The definition of a child of a compound view.
pub open spec fn child_of(compound: CompoundModel, index: int) -> ChildModel {
    if index == 0 {
        compound.first
    } else {
        compound.second
    }
}

/// The error says what is wrong with a compound view.
pub open spec fn tells_compound_fault(
    error: LayoutError,
    views: Map<u64, ViewModel>,
    parent: ViewId,
    compound: CompoundModel,
    fault: CompoundFault,
) -> bool {
    match fault {
        CompoundFault::MissingParent => error == LayoutError::MissingView(parent),
        CompoundFault::ChildCount => error == LayoutError::InvalidWorkspace(
            WorkspaceFault::CompoundChildCount(parent),
        ),
        CompoundFault::Root => error matches LayoutError::InvalidWorkspace(
            WorkspaceFault::CompoundRoot(definition),
        ) && definition.name() == compound.definition.id,
        CompoundFault::MissingChild(index) => error == LayoutError::MissingView(
            views[parent.0].children[index],
        ),
        CompoundFault::ChildIdentity(index) => error matches LayoutError::InvalidWorkspace(
            WorkspaceFault::CompoundChildIdentity { definition, child },
        ) && definition.name() == compound.definition.id && child@ == child_of(
            compound,
            index,
        ).key,
        CompoundFault::ChildBinding(index, link) => error matches LayoutError::InvalidWorkspace(
            WorkspaceFault::CompoundChildBinding {
                definition,
                child,
                child_binding,
                parent_binding,
            },
        ) && definition.name() == compound.definition.id && child@ == child_of(compound, index).key
            && child_binding.name() == child_of(compound, index).links[link].child
            && parent_binding.name() == child_of(compound, index).links[link].parent,
    }
}

/// Why the children, from index `i` on, cannot be put under a parent.
pub open spec fn children_refusal(
    views: Map<u64, ViewModel>,
    parent: ViewId,
    children: Seq<(ViewId, bool)>,
    i: int,
) -> Option<LayoutError>
    decreases children.len() - i,
{
    if i >= children.len() {
        None
    } else if children[i].0 == parent || exists|j: int|
        0 <= j < i && (#[trigger] children[j]).0 == children[i].0 {
        Some(LayoutError::InvalidWorkspace(WorkspaceFault::ChildrenNotDistinct))
    } else if !views.contains_key(children[i].0.0) {
        Some(LayoutError::MissingView(children[i].0))
    } else if views[children[i].0.0].parent is Some {
        Some(LayoutError::InvalidWorkspace(WorkspaceFault::AlreadyHasParent(children[i].0)))
    } else {
        children_refusal(views, parent, children, i + 1)
    }
}

/// Why children cannot be put under a parent.
pub open spec fn compose_refusal(
    views: Map<u64, ViewModel>,
    parent: ViewId,
    children: Seq<(ViewId, bool)>,
) -> Option<LayoutError> {
    if !views.contains_key(parent.0) {
        Some(LayoutError::MissingView(parent))
    } else if views[parent.0].children.len() > 0 {
        Some(LayoutError::InvalidWorkspace(WorkspaceFault::ParentOwnsChildren))
    } else {
        children_refusal(views, parent, children, 0)
    }
}

/// The views once children have been put under a parent, each with whether it can be switched.
pub open spec fn composed(
    views: Map<u64, ViewModel>,
    parent: ViewId,
    children: Seq<(ViewId, bool)>,
) -> Map<u64, ViewModel>
    decreases children.len(),
{
    if children.len() == 0 {
        views
    } else {
        let before = composed(views, parent, children.drop_last());
        let (child, switchable) = children.last();
        let placed = before.insert(
            child.0,
            ViewModel { parent: Some(parent), switchable, ..before[child.0] },
        );
        placed.insert(
            parent.0,
            ViewModel {
                children: child_added(placed[parent.0].children, child),
                ..placed[parent.0]
            },
        )
    }
}

impl<B: SceneBuilder> ViewWorkspace<B> {
    /// Changes the size of the scene.
    pub fn resize(&mut self, width: u16, height: u16)
        requires
            old(self).valid(),
            old(self).model().scene_revision < u64::MAX,
        ensures
            final(self).talk() == old(self).talk(),
            final(self).builder() == old(self).builder(),
            final(self).valid(),
            final(self).model() == revised(
                WorkspaceModel {
                    size: SceneSize { width: width as i32, height: height as i32 },
                    ..old(self).model()
                },
            ),
    {
        self.scene.size = SceneSize { width: width as i32, height: height as i32 };
        self.revise();
        proof {
            law_free_changes_keep_soundness(old(self).model(), self.model());
        }
    }

    /// Binds a role of a view to another content; scene and identities stay.
    pub fn rebind(
        &mut self,
        view: ViewId,
        binding: &BindingKey,
        content: ContentId,
        state: Option<ContentViewState>,
    ) -> (result: Result<ContentId, LayoutError>)
        requires
            old(self).valid(),
            can_count(old(self).model(), view),
        ensures
            final(self).talk() == old(self).talk(),
            old(self).went_on(*final(self)),
            ({
                let views = old(self).model().views;
                let after = with_view(
                    old(self).model(),
                    view.0,
                    rebound_view(views[view.0], binding.name(), content, optional_state(state)),
                );
                match result {
                    Ok(previous) => {
                        &&& views.contains_key(view.0)
                        &&& rebind_fault(views[view.0], binding.name(), state is Some) is None
                        &&& content_of(views[view.0].bindings, binding.name()) == Some(previous)
                        &&& final(self).model() == after
                        &&& final(self).valid()
                    },
                    Err(error) => {
                        &&& *final(self) == *old(self)
                        &&& if !views.contains_key(view.0) {
                            error == LayoutError::MissingView(view)
                        } else {
                            match rebind_fault(views[view.0], binding.name(), state is Some) {
                                Some(fault) => tells_binding_fault(error, view, fault),
                                None => !workspace_sound(after) && would_be_unsound(after, error),
                            }
                        }
                    },
                }
            }),
    {
        let ghost before = self.model();
        let mut draft = self.draft();
        let ghost start = draft;
        let previous = match entry_mut(&mut draft.views, view.0) {
            Some(data) => match data.rebind(binding, content, state) {
                Ok(previous) => previous,
                Err(ContentBindingError::Unknown(binding)) => {
                    return Err(LayoutError::MissingBinding { view, binding });
                },
                Err(_) => {
                    return Err(
                        LayoutError::InvalidWorkspace(WorkspaceFault::InvalidDocumentState(view)),
                    );
                },
            },
            None => {
                return Err(LayoutError::MissingView(view));
            },
        };
        proof {
            let after = with_view(
                before,
                view.0,
                rebound_view(
                    before.views[view.0],
                    binding.name(),
                    content,
                    optional_state(state),
                ),
            );
            assert(draft.model().views =~= after.views);
            assert(draft.model() =~= after);
            assert(before.views.contains_key(view.0));
            lemma_rebound_view_sound(
                before.views[view.0],
                binding.name(),
                content,
                optional_state(state),
            );
            assert(draft.model().views.dom() =~= draft.views@.dom());
        }
        match draft.validate() {
            Ok(_) => {},
            Err(error) => {
                return Err(error);
            },
        }
        assert(start.went_on(draft));
        *self = draft;
        Ok(previous)
    }

    /// Allows or forbids switching a view for another one.
    pub fn set_switchable(&mut self, view: ViewId, switchable: bool) -> (result: Result<
        (),
        LayoutError,
    >)
        requires
            old(self).valid(),
            old(self).model().scene_revision < u64::MAX,
        ensures
            final(self).talk() == old(self).talk(),
            old(self).went_on(*final(self)),
            ({
                let views = old(self).model().views;
                let after = revised(
                    with_view(
                        old(self).model(),
                        view.0,
                        ViewModel { switchable, ..views[view.0] },
                    ),
                );
                match result {
                    Ok(_) => {
                        &&& views.contains_key(view.0)
                        &&& final(self).model() == after
                        &&& final(self).valid()
                    },
                    Err(error) => {
                        &&& *final(self) == *old(self)
                        &&& if !views.contains_key(view.0) {
                            error == LayoutError::MissingView(view)
                        } else {
                            !workspace_sound(after) && would_be_unsound(after, error)
                        }
                    },
                }
            }),
    {
        let ghost before = self.model();
        let mut draft = self.draft();
        let ghost start = draft;
        match entry_mut(&mut draft.views, view.0) {
            Some(data) => {
                data.set_switchable(switchable);
            },
            None => {
                return Err(LayoutError::MissingView(view));
            },
        }
        proof {
            let middle = with_view(
                before,
                view.0,
                ViewModel { switchable, ..before.views[view.0] },
            );
            assert(draft.model().views =~= middle.views);
            assert(draft.model() =~= middle);
            assert(draft.model().views.dom() =~= draft.views@.dom());
        }
        draft.revise();
        match draft.validate() {
            Ok(_) => {},
            Err(error) => {
                return Err(error);
            },
        }
        assert(start.went_on(draft));
        *self = draft;
        Ok(())
    }

    /// Puts views under another one, each with whether it can be switched on its own.
    pub fn compose(&mut self, parent: ViewId, children: &Vec<(ViewId, bool)>) -> (result: Result<
        (),
        LayoutError,
    >)
        requires
            old(self).valid(),
            old(self).model().scene_revision < u64::MAX,
        ensures
            final(self).talk() == old(self).talk(),
            old(self).went_on(*final(self)),
            ({
                let views = old(self).model().views;
                let after = revised(
                    WorkspaceModel {
                        views: composed(views, parent, children@),
                        ..old(self).model()
                    },
                );
                match result {
                    Ok(_) => {
                        &&& compose_refusal(views, parent, children@) is None
                        &&& final(self).model() == after
                        &&& final(self).valid()
                    },
                    Err(error) => {
                        &&& *final(self) == *old(self)
                        &&& match compose_refusal(views, parent, children@) {
                            Some(refusal) => error == refusal,
                            None => !workspace_sound(after) && would_be_unsound(after, error),
                        }
                    },
                }
            }),
    {
        let mut draft = self.draft();
        match draft.compose_in_place(parent, children) {
            Ok(_) => {},
            Err(error) => {
                return Err(error);
            },
        }
        draft.revise();
        match draft.validate() {
            Ok(_) => {},
            Err(error) => {
                return Err(error);
            },
        }
        *self = draft;
        Ok(())
    }

    /// Puts views under another one, without a look at the whole.
    pub(crate) fn compose_in_place(&mut self, parent: ViewId, children: &Vec<(ViewId, bool)>) -> (result:
        Result<(), LayoutError>)
        requires
            views_ready(old(self).model()),
        ensures
            final(self).talk() == old(self).talk(),
            old(self).went_on(*final(self)),
            views_ready(final(self).model()),
            match result {
                Ok(_) => {
                    &&& compose_refusal(old(self).model().views, parent, children@) is None
                    &&& final(self).model() == (WorkspaceModel {
                        views: composed(old(self).model().views, parent, children@),
                        ..old(self).model()
                    })
                },
                Err(error) => {
                    &&& compose_refusal(old(self).model().views, parent, children@) == Some(error)
                    &&& *final(self) == *old(self)
                },
            },
    {
        match self.check_children(parent, children) {
            Ok(_) => {},
            Err(error) => {
                return Err(error);
            },
        }
        let ghost before = self.model();
        let ghost views = before.views;
        let mut i: usize = 0;
        while i < children.len()
            invariant
                i <= children.len(),
                before == old(self).model(),
                views == before.views,
                self.talk() == old(self).talk(),
                self.builder() == old(self).builder(),
                views_ready(self.model()),
                compose_refusal(views, parent, children@) is None,
                forall|j: int|
                    0 <= j < children@.len() ==> views.contains_key((#[trigger] children@[j]).0.0)
                        && children@[j].0 != parent,
                views.contains_key(parent.0),
                self.model().views.dom() == views.dom(),
                self.model() == (WorkspaceModel {
                    views: composed(views, parent, children@.take(i as int)),
                    ..before
                }),
            decreases children.len() - i,
        {
            let (child, switchable) = children[i];
            assert(children@[i as int] == (child, switchable));
            let ghost here = self.model();
            assert(children@.take(i + 1).drop_last() =~= children@.take(i as int));
            match entry_mut(&mut self.views, child.0) {
                Some(data) => {
                    data.set_parent(Some(parent));
                    data.set_switchable(switchable);
                },
                None => {
                    assert(false);
                },
            }
            let ghost placed = here.views.insert(
                child.0,
                ViewModel { parent: Some(parent), switchable, ..here.views[child.0] },
            );
            assert(self.model().views =~= placed);
            match entry_mut(&mut self.views, parent.0) {
                Some(data) => {
                    data.push_child(child);
                },
                None => {
                    assert(false);
                },
            }
            proof {
                let after = composed(views, parent, children@.take(i + 1));
                assert(self.model().views =~= after);
                assert(self.model() =~= (WorkspaceModel { views: after, ..before }));
                assert(self.model().views.dom() =~= views.dom());
                assert(self.model().views.dom() =~= self.views@.dom());
            }
            i = i + 1;
        }
        assert(children@.take(i as int) =~= children@);
        Ok(())
    }

    /// Checks whether views can be put under another one.
    fn check_children(&self, parent: ViewId, children: &Vec<(ViewId, bool)>) -> (result: Result<
        (),
        LayoutError,
    >)
        ensures
            match result {
                Ok(_) => {
                    &&& compose_refusal(self.model().views, parent, children@) is None
                    &&& self.model().views.contains_key(parent.0)
                    &&& forall|j: int|
                        0 <= j < children@.len() ==> self.model().views.contains_key(
                            (#[trigger] children@[j]).0.0,
                        ) && children@[j].0 != parent
                },
                Err(error) => compose_refusal(self.model().views, parent, children@) == Some(error),
            },
    {
        let ghost views = self.model().views;
        match self.view(parent) {
            Some(data) => {
                if data.children().len() > 0 {
                    return Err(LayoutError::InvalidWorkspace(WorkspaceFault::ParentOwnsChildren));
                }
            },
            None => {
                return Err(LayoutError::MissingView(parent));
            },
        }
        let mut i: usize = 0;
        while i < children.len()
            invariant
                i <= children.len(),
                views == self.model().views,
                compose_refusal(views, parent, children@) == children_refusal(
                    views,
                    parent,
                    children@,
                    i as int,
                ),
                forall|j: int|
                    0 <= j < i ==> views.contains_key((#[trigger] children@[j]).0.0)
                        && children@[j].0 != parent,
            decreases children.len() - i,
        {
            let child = children[i].0;
            let mut repeated = child == parent;
            let mut j: usize = 0;
            while j < i
                invariant
                    j <= i,
                    i < children.len(),
                    child == children@[i as int].0,
                    repeated == (child == parent || exists|k: int|
                        0 <= k < j && (#[trigger] children@[k]).0 == child),
                decreases i - j,
            {
                if children[j].0 == child {
                    assert(children@[j as int].0 == child);
                    repeated = true;
                }
                j = j + 1;
            }
            if repeated {
                return Err(LayoutError::InvalidWorkspace(WorkspaceFault::ChildrenNotDistinct));
            }
            match self.view(child) {
                Some(data) => {
                    if data.parent().is_some() {
                        return Err(
                            LayoutError::InvalidWorkspace(WorkspaceFault::AlreadyHasParent(child)),
                        );
                    }
                },
                None => {
                    return Err(LayoutError::MissingView(child));
                },
            }
            i = i + 1;
        }
        Ok(())
    }

    /// Replaces the selections of the document of a view, and tells whether they changed.
    pub fn set_selections(&mut self, view: ViewId, selections: Selections) -> (changed: bool)
        requires
            old(self).valid(),
            can_count(old(self).model(), view),
        ensures
            final(self).talk() == old(self).talk(),
            old(self).went_on(*final(self)),
            final(self).valid(),
            changed == (old(self).model().views.contains_key(view.0) && (old(
                self,
            ).model().views[view.0].document_state matches Some(Some(current)) && current
                != selections.model())),
            final(self).model() == if changed {
                with_view(
                    old(self).model(),
                    view.0,
                    ViewModel {
                        document_state: Some(Some(selections.model())),
                        revision: (old(self).model().views[view.0].revision + 1) as u64,
                        ..old(self).model().views[view.0]
                    },
                )
            } else {
                old(self).model()
            },
    {
        let ghost before = self.model();
        let changed = match entry_mut(&mut self.views, view.0) {
            Some(data) => data.set_selections(selections),
            None => {
                assert(self.model() =~= before);
                return false;
            },
        };
        proof {
            let data = if changed {
                ViewModel {
                    document_state: Some(Some(selections.model())),
                    revision: (before.views[view.0].revision + 1) as u64,
                    ..before.views[view.0]
                }
            } else {
                before.views[view.0]
            };
            let after = with_view(before, view.0, data);
            assert(self.model().views =~= after.views);
            assert(self.model() =~= after);
            assert(!changed ==> after.views =~= before.views);
            assert(self.model().views.dom() =~= before.views.dom());
            assert(before.views.contains_key(view.0));
            assert(self.model().views.dom() =~= self.views@.dom());
            law_free_changes_keep_soundness(before, self.model());
        }
        changed
    }
}

/// Two views that differ at most in what a layout does not depend on.
pub open spec fn same_place(a: ViewModel, b: ViewModel) -> bool {
    b == (ViewModel {
        document_state: b.document_state,
        binding_revision: b.binding_revision,
        revision: b.revision,
        ..a
    })
}

/// What a layout does not depend on can change freely: the size of the scene, its revision, the
/// focus among the spaces that take it, and the selections and revisions of views.
pub proof fn law_free_changes_keep_soundness(before: WorkspaceModel, after: WorkspaceModel)
    requires
        workspace_sound(before),
        after == (WorkspaceModel {
            size: after.size,
            scene_revision: after.scene_revision,
            views: after.views,
            focused: after.focused,
            ..before
        }),
        focusable_at(after.nodes, after.focused) == Some(true),
        after.views.dom() == before.views.dom(),
        forall|id: u64| #[trigger]
            before.views.contains_key(id) ==> same_place(before.views[id], after.views[id]),
    ensures
        workspace_sound(after),
{
    let views = after.views;
    assert forall|id: u64| #[trigger] views.contains_key(id) implies view_agrees(after, id) by {
        assert(before.views.contains_key(id));
        assert(view_agrees(before, id));
        assert forall|i: int| 0 <= i < views[id].children.len() implies is_child_of(
            views,
            #[trigger] views[id].children[i],
            id,
        ) by {
            assert(is_child_of(before.views, before.views[id].children[i], id));
        }
    }
    assert forall|id: u64| #[trigger] views.contains_key(id) implies rooted(views, id) by {
        assert(before.views.contains_key(id));
        lemma_same_roots(before.views, views, id, views.dom().len());
    }
    assert(after.nodes == before.nodes);
    if before.placement is Global {
        let space = before.global_status->0;
        let id = choose|id: u64| #[trigger] is_sole_status(before.views, space, id);
        assert(is_sole_status(views, space, id));
    }
}

proof fn lemma_same_roots(
    before: Map<u64, ViewModel>,
    after: Map<u64, ViewModel>,
    view: u64,
    steps: nat,
)
    requires
        after.dom() == before.dom(),
        forall|id: u64| #[trigger]
            before.contains_key(id) ==> same_place(before[id], after[id]),
    ensures
        rooted_within(before, view, steps) == rooted_within(after, view, steps),
    decreases steps,
{
    if steps > 0 && before.contains_key(view) {
        if let Some(parent) = before[view].parent {
            lemma_same_roots(before, after, parent.0, (steps - 1) as nat);
        }
    }
}

/// Binding a role to another content keeps a view sound.
pub proof fn lemma_rebound_view_sound(
    view: ViewModel,
    role: Seq<char>,
    content: ContentId,
    state: Option<Option<SelectionsModel>>,
)
    requires
        view_sound(view),
        rebind_fault(view, role, state is Some) is None,
    ensures
        view_sound(rebound_view(view, role, content, state)),
{
    law_rebinding_changes_one_role(view.bindings, role, content, DOCUMENT_BINDING@);
}

} // verus!
