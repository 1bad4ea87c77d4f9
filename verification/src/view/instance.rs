//! A view: an instance of a definition, the contents bound to its roles, and its place among the
//! other views.

use crate::protocol::{ContentId, Revision, SpaceId, ViewId};
use crate::text::same_text;
use crate::view::bindings::{
    binding_fault, bound, bounds_of, content_of, in_name_order, law_declared_roles_are_bound,
    law_rebinding_changes_one_role, rebound, refers_to, sorts, BindingFault, Bound,
    ContentBindingError, ContentBindings,
};
use crate::view::content_state::{ContentViewState, Selections, SelectionsModel};
use crate::view::definition::{
    BUFFER_VIEW_DEFINITION, BindingKey, DOCUMENT_BINDING, DefinitionModel, ViewDefinition,
    ViewDefinitionId,
};
use crate::view::panes::{assigned, key_for, keys_differ, PaneKey, ViewPaneMap};
use vstd::prelude::*;
use vstd::string::StringExecFns;
use vstd::view::View as _;

verus! {

/// Everything that a view holds.
#[verifier::ext_equal]
pub struct ViewModel {
    pub definition: Seq<char>,
    pub bindings: Seq<Bound>,
    pub document_state: Option<Option<SelectionsModel>>,
    pub binding_revision: u64,
    pub revision: u64,
    pub panes: Map<SpaceId, Seq<char>>,
    pub switchable: bool,
    pub parent: Option<ViewId>,
    pub children: Seq<ViewId>,
}

/// The state of an optional document.
pub open spec fn optional_state(state: Option<ContentViewState>) -> Option<
    Option<SelectionsModel>,
> {
    match state {
        Some(state) => Some(state.model()),
        None => None,
    }
}

/// What holds of every view: its roles are in order, it has the state of its document exactly
/// where it has a document, and no two of its spaces are used for the same.
pub open spec fn view_sound(view: ViewModel) -> bool {
    &&& in_name_order(view.bindings)
    &&& view.document_state is Some <==> content_of(view.bindings, DOCUMENT_BINDING@) is Some
    &&& keys_differ(view.panes)
}

/// A view that has just been made of a definition.
pub open spec fn fresh_view(
    definition: Seq<char>,
    bindings: Seq<Bound>,
    document_state: Option<Option<SelectionsModel>>,
) -> ViewModel {
    ViewModel {
        definition,
        bindings,
        document_state,
        binding_revision: 0,
        revision: 0,
        panes: Map::empty(),
        switchable: true,
        parent: None,
        children: Seq::empty(),
    }
}

/// The content that a view edits.
pub open spec fn document_of(view: ViewModel) -> Option<ContentId> {
    content_of(view.bindings, DOCUMENT_BINDING@)
}

/// Why a view cannot be made of a definition.
pub open spec fn view_fault(
    definition: DefinitionModel,
    given: Seq<Bound>,
    has_state: bool,
) -> Option<BindingFault> {
    if definition.bindings.contains(DOCUMENT_BINDING@) != has_state {
        Some(BindingFault::DocumentStateMismatch)
    } else {
        binding_fault(definition, given)
    }
}

/// Why a role cannot be bound to another content.
pub open spec fn rebind_fault(view: ViewModel, role: Seq<char>, has_state: bool) -> Option<
    BindingFault,
> {
    if content_of(view.bindings, role) is None {
        Some(BindingFault::Unknown(role))
    } else if (role == DOCUMENT_BINDING@) != has_state {
        Some(BindingFault::DocumentStateMismatch)
    } else {
        None
    }
}

/// A view once a role is bound to another content; nothing changes where it is the same one.
pub open spec fn rebound_view(
    view: ViewModel,
    role: Seq<char>,
    content: ContentId,
    state: Option<Option<SelectionsModel>>,
) -> ViewModel {
    if content_of(view.bindings, role) == Some(content) {
        view
    } else {
        ViewModel {
            bindings: rebound(view.bindings, role, content),
            document_state: if state is Some {
                state
            } else {
                view.document_state
            },
            binding_revision: (view.binding_revision + 1) as u64,
            revision: (view.revision + 1) as u64,
            ..view
        }
    }
}

/// A view once a space is used for that.
pub open spec fn with_pane(view: ViewModel, space: SpaceId, key: Seq<char>) -> ViewModel {
    ViewModel { panes: assigned(view.panes, space, key), ..view }
}

/// A view once it has given up a space.
pub open spec fn without_pane(view: ViewModel, space: SpaceId) -> ViewModel {
    ViewModel { panes: view.panes.remove(space), ..view }
}

/// Children with one more at the end, unless it is there.
pub open spec fn child_added(children: Seq<ViewId>, child: ViewId) -> Seq<ViewId> {
    if children.contains(child) {
        children
    } else {
        children.push(child)
    }
}

/// Children without one.
pub open spec fn child_removed(children: Seq<ViewId>, child: ViewId) -> Seq<ViewId>
    decreases children.len(),
{
    if children.len() == 0 {
        Seq::empty()
    } else if children.last() == child {
        child_removed(children.drop_last(), child)
    } else {
        child_removed(children.drop_last(), child).push(children.last())
    }
}

/// Where a child first stands.
pub open spec fn child_index(children: Seq<ViewId>, child: ViewId, i: int) -> Option<int>
    decreases children.len() - i,
{
    if i >= children.len() {
        None
    } else if children[i] == child {
        Some(i)
    } else {
        child_index(children, child, i + 1)
    }
}

/// Children with the first occurrence of one replaced by another.
pub open spec fn child_replaced(
    children: Seq<ViewId>,
    current: ViewId,
    replacement: ViewId,
) -> Seq<ViewId> {
    match child_index(children, current, 0) {
        Some(i) => children.update(i, replacement),
        None => children,
    }
}

/// A view on one or more contents.
pub struct View {
    definition: ViewDefinitionId,
    bindings: ContentBindings,
    document_state: Option<ContentViewState>,
    binding_revision: Revision,
    revision: Revision,
    panes: ViewPaneMap,
    switchable: bool,
    parent: Option<ViewId>,
    children: Vec<ViewId>,
}

impl View {
    /// Everything that the view holds.
    pub closed spec fn model(self) -> ViewModel {
        ViewModel {
            definition: self.definition.name(),
            bindings: self.bindings.model(),
            document_state: optional_state(self.document_state),
            binding_revision: self.binding_revision.0,
            revision: self.revision.0,
            panes: self.panes.model(),
            switchable: self.switchable,
            parent: self.parent,
            children: self.children@,
        }
    }

    #[verifier::type_invariant]
    spec fn is_sound(self) -> bool {
        view_sound(self.model())
    }

    /// Brings to mind what holds of every view.
    pub(crate) fn sound(&self)
        ensures
            view_sound(self.model()),
    {
        proof {
            use_type_invariant(self);
        }
    }

    /// A view that edits one content.
    pub fn buffer(content: ContentId, state: ContentViewState) -> (view: Self)
        ensures
            view.model() == fresh_view(
                BUFFER_VIEW_DEFINITION@,
                seq![Bound { role: DOCUMENT_BINDING@, content }],
                Some(state.model()),
            ),
    {
        let definition = ViewDefinition::buffer();
        let mut bindings: Vec<(BindingKey, ContentId)> = Vec::new();
        bindings.push((BindingKey::new(DOCUMENT_BINDING), content));
        let ghost given = bounds_of(bindings@);
        let ghost model = definition.model();
        let ghost state_model = state.model();
        proof {
            assert(given =~= seq![Bound { role: DOCUMENT_BINDING@, content }]);
            assert(model.bindings[0] == DOCUMENT_BINDING@);
            assert(model.bindings.contains(DOCUMENT_BINDING@));
            assert(given[0].role == model.bindings[0]);
            reveal_with_fuel(crate::view::bindings::pair_fault, 2);
            reveal_with_fuel(crate::view::bindings::missing_role, 2);
            assert(binding_fault(model, given) is None);
        }
        match View::with_definition(&definition, bindings, Some(state)) {
            Ok(view) => {
                proof {
                    let held = view.model().bindings;
                    assert(held.len() == 1);
                    assert(content_of(held, given[0].role) == Some(content));
                    let k = choose|k: int|
                        crate::view::bindings::binds_at(held, given[0].role, k);
                    assert(held[0] == given[0]);
                    assert(held =~= given);
                }
                view
            },
            Err(_) => vstd::pervasive::unreached(),
        }
    }

    /// A view of a definition, with a content for each of its roles, and the state of its document
    /// exactly where it declares one.
    pub fn with_definition(
        definition: &ViewDefinition,
        bindings: Vec<(BindingKey, ContentId)>,
        document_state: Option<ContentViewState>,
    ) -> (result: Result<Self, ContentBindingError>)
        ensures
            match result {
                Ok(view) => {
                    &&& view_fault(
                        definition.model(),
                        bounds_of(bindings@),
                        document_state is Some,
                    ) is None
                    &&& sorts(view.model().bindings, bounds_of(bindings@))
                    &&& view.model() == fresh_view(
                        definition.model().id,
                        view.model().bindings,
                        optional_state(document_state),
                    )
                },
                Err(error) => view_fault(
                    definition.model(),
                    bounds_of(bindings@),
                    document_state is Some,
                ) == Some(error.model()),
            },
    {
        if definition.declares(DOCUMENT_BINDING) != document_state.is_some() {
            return Err(ContentBindingError::DocumentStateMismatch);
        }
        let ghost given = bounds_of(bindings@);
        match ContentBindings::new(definition, bindings) {
            Ok(bound) => {
                proof {
                    law_declared_roles_are_bound(
                        definition.model(),
                        given,
                        bound.model(),
                        DOCUMENT_BINDING@,
                    );
                }
                let children: Vec<ViewId> = Vec::new();
                Ok(
                    View {
                        definition: definition.id().clone(),
                        bindings: bound,
                        document_state,
                        binding_revision: Revision(0),
                        revision: Revision(0),
                        panes: ViewPaneMap::new(),
                        switchable: true,
                        parent: None,
                        children,
                    },
                )
            },
            Err(error) => Err(error),
        }
    }

    pub fn definition(&self) -> (id: &ViewDefinitionId)
        ensures
            id.name() == self.model().definition,
    {
        &self.definition
    }

    pub fn bindings(&self) -> (bindings: &ContentBindings)
        ensures
            bindings.model() == self.model().bindings,
    {
        &self.bindings
    }

    /// The content that a role is bound to.
    pub fn binding(&self, key: &str) -> (content: Option<ContentId>)
        ensures
            content == content_of(self.model().bindings, key@),
    {
        self.bindings.get(key)
    }

    /// The content that the view edits.
    pub fn document_content(&self) -> (content: Option<ContentId>)
        ensures
            content == document_of(self.model()),
    {
        self.binding(DOCUMENT_BINDING)
    }

    /// The content that the view edits, with its state.
    pub fn document(&self) -> (document: Option<(ContentId, &ContentViewState)>)
        ensures
            match document {
                Some((content, state)) => document_of(self.model()) == Some(content)
                    && self.model().document_state == Some(state.model()),
                None => document_of(self.model()) is None && self.model().document_state is None,
            },
    {
        proof {
            use_type_invariant(self);
        }
        match (self.document_content(), &self.document_state) {
            (Some(content), Some(state)) => Some((content, state)),
            _ => None,
        }
    }

    /// The content that a view on a document edits.
    pub fn require_document(&self) -> (content: ContentId)
        requires
            document_of(self.model()) is Some,
        ensures
            document_of(self.model()) == Some(content),
    {
        self.document_content().unwrap()
    }

    /// Whether some role is bound to the content.
    pub fn references(&self, content: ContentId) -> (refers: bool)
        ensures
            refers == refers_to(self.model().bindings, content),
    {
        self.bindings.references(content)
    }

    /// Binds a role to another content; the document comes with its new state.
    pub fn rebind(
        &mut self,
        key: &BindingKey,
        content: ContentId,
        state: Option<ContentViewState>,
    ) -> (result: Result<ContentId, ContentBindingError>)
        requires
            old(self).model().binding_revision < u64::MAX,
            old(self).model().revision < u64::MAX,
        ensures
            match result {
                Ok(previous) => {
                    &&& rebind_fault(old(self).model(), key.name(), state is Some) is None
                    &&& content_of(old(self).model().bindings, key.name()) == Some(previous)
                    &&& final(self).model() == rebound_view(
                        old(self).model(),
                        key.name(),
                        content,
                        optional_state(state),
                    )
                },
                Err(error) => {
                    &&& rebind_fault(old(self).model(), key.name(), state is Some) == Some(
                        error.model(),
                    )
                    &&& *final(self) == *old(self)
                },
            },
    {
        proof {
            use_type_invariant(&*self);
        }
        let ghost before = self.model();
        let previous = match self.binding(key.as_str()) {
            Some(previous) => previous,
            None => {
                return Err(ContentBindingError::Unknown(key.clone()));
            },
        };
        let document_rebind = same_text(key.as_str(), DOCUMENT_BINDING);
        if document_rebind != state.is_some() {
            return Err(ContentBindingError::DocumentStateMismatch);
        }
        if previous == content {
            return Ok(previous);
        }
        let mut bindings = self.bindings.clone();
        match bindings.rebind(key, content) {
            Ok(_) => {},
            Err(error) => {
                return Err(error);
            },
        }
        proof {
            law_rebinding_changes_one_role(
                before.bindings,
                key.name(),
                content,
                DOCUMENT_BINDING@,
            );
        }
        let document_state = match state {
            Some(state) => Some(state),
            None => match &self.document_state {
                Some(state) => Some(state.clone()),
                None => None,
            },
        };
        let after = View {
            definition: self.definition.clone(),
            bindings,
            document_state,
            binding_revision: Revision(self.binding_revision.0 + 1),
            revision: Revision(self.revision.0 + 1),
            panes: self.panes.clone(),
            switchable: self.switchable,
            parent: self.parent,
            children: self.children.clone(),
        };
        assert(after.children@ =~= before.children);
        *self = after;
        Ok(previous)
    }

    pub fn panes(&self) -> (panes: &ViewPaneMap)
        ensures
            panes.model() == self.model().panes,
    {
        &self.panes
    }

    pub fn switchable(&self) -> (switchable: bool)
        ensures
            switchable == self.model().switchable,
    {
        self.switchable
    }

    pub fn parent(&self) -> (parent: Option<ViewId>)
        ensures
            parent == self.model().parent,
    {
        self.parent
    }

    pub fn children(&self) -> (children: &Vec<ViewId>)
        ensures
            children@ == self.model().children,
    {
        &self.children
    }

    /// The selections of the document, where there is one that has any.
    pub fn selections(&self) -> (selections: Option<&Selections>)
        ensures
            match selections {
                Some(selections) => self.model().document_state == Some(Some(selections.model())),
                None => !(self.model().document_state matches Some(Some(_))),
            },
    {
        match &self.document_state {
            Some(state) => state.selections(),
            None => None,
        }
    }

    pub fn revision(&self) -> (revision: Revision)
        ensures
            revision.0 == self.model().revision,
    {
        self.revision
    }

    pub fn binding_revision(&self) -> (revision: Revision)
        ensures
            revision.0 == self.model().binding_revision,
    {
        self.binding_revision
    }

    /// The state of the document of a view on a document.
    pub fn require_document_state(&self) -> (state: &ContentViewState)
        requires
            self.model().document_state is Some,
        ensures
            self.model().document_state == Some(state.model()),
    {
        match &self.document_state {
            Some(state) => state,
            None => vstd::pervasive::unreached(),
        }
    }

    /// Uses a space of the layout for that.
    pub fn assign_pane(&mut self, space: SpaceId, key: &str)
        ensures
            final(self).model() == with_pane(old(self).model(), space, key@),
            view_sound(final(self).model()),
    {
        proof {
            use_type_invariant(&*self);
        }
        let mut panes = self.panes.clone();
        panes.insert(space, String::from_str(key));
        self.panes = panes;
        assert(self.model() =~= with_pane(old(self).model(), space, key@));
    }

    /// Gives a space of the layout up.
    pub fn release_pane_space(&mut self, space: SpaceId) -> (key: Option<PaneKey>)
        ensures
            match key {
                Some(key) => key_for(old(self).model().panes, space) == Some(key@),
                None => key_for(old(self).model().panes, space) is None,
            },
            final(self).model() == without_pane(old(self).model(), space),
            view_sound(final(self).model()),
    {
        proof {
            use_type_invariant(&*self);
        }
        let mut panes = self.panes.clone();
        let key = panes.remove_space(space);
        self.panes = panes;
        assert(self.model() =~= without_pane(old(self).model(), space));
        key
    }

    /// Allows or forbids switching the view for another one.
    pub fn set_switchable(&mut self, switchable: bool)
        ensures
            final(self).model() == (ViewModel { switchable, ..old(self).model() }),
            view_sound(final(self).model()),
    {
        proof {
            use_type_invariant(&*self);
        }
        self.switchable = switchable;
    }

    /// Puts the view under another one, or under none.
    pub fn set_parent(&mut self, parent: Option<ViewId>)
        ensures
            final(self).model() == (ViewModel { parent, ..old(self).model() }),
            view_sound(final(self).model()),
    {
        proof {
            use_type_invariant(&*self);
        }
        self.parent = parent;
    }

    /// Adds a child at the end, unless it is there.
    pub fn push_child(&mut self, child: ViewId)
        ensures
            final(self).model() == (ViewModel {
                children: child_added(old(self).model().children, child),
                ..old(self).model()
            }),
            view_sound(final(self).model()),
    {
        proof {
            use_type_invariant(&*self);
        }
        if !holds_id(&self.children, child) {
            let mut children = self.children.clone();
            assert(children@ =~= self.children@);
            children.push(child);
            self.children = children;
        }
        assert(self.model() =~= (ViewModel {
            children: child_added(old(self).model().children, child),
            ..old(self).model()
        }));
    }

    /// Takes a child away.
    pub fn remove_child(&mut self, child: ViewId)
        ensures
            final(self).model() == (ViewModel {
                children: child_removed(old(self).model().children, child),
                ..old(self).model()
            }),
            view_sound(final(self).model()),
    {
        proof {
            use_type_invariant(&*self);
        }
        let ghost before = self.children@;
        let mut children: Vec<ViewId> = Vec::new();
        let mut i: usize = 0;
        while i < self.children.len()
            invariant
                i <= self.children.len(),
                before == self.children@,
                children@ == child_removed(before.take(i as int), child),
            decreases self.children.len() - i,
        {
            assert(before.take(i + 1).drop_last() =~= before.take(i as int));
            if self.children[i] != child {
                children.push(self.children[i]);
            }
            i = i + 1;
        }
        assert(before.take(i as int) =~= before);
        self.children = children;
        assert(self.model() =~= (ViewModel {
            children: child_removed(old(self).model().children, child),
            ..old(self).model()
        }));
    }

    /// Puts one view in the place of a child, where it is one.
    pub fn replace_child(&mut self, current: ViewId, replacement: ViewId) -> (replaced: bool)
        ensures
            replaced == old(self).model().children.contains(current),
            final(self).model() == (ViewModel {
                children: child_replaced(old(self).model().children, current, replacement),
                ..old(self).model()
            }),
            view_sound(final(self).model()),
    {
        proof {
            use_type_invariant(&*self);
        }
        let ghost before = self.children@;
        let mut i: usize = 0;
        while i < self.children.len()
            invariant
                i <= self.children.len(),
                before == self.children@,
                *self == *old(self),
                view_sound(self.model()),
                child_index(before, current, 0) == child_index(before, current, i as int),
                forall|j: int| 0 <= j < i ==> before[j] != current,
            decreases self.children.len() - i,
        {
            if self.children[i] == current {
                let mut children = self.children.clone();
                assert(children@ =~= before);
                children.set(i, replacement);
                self.children = children;
                assert(before[i as int] == current);
                assert(self.model() =~= (ViewModel {
                    children: child_replaced(old(self).model().children, current, replacement),
                    ..old(self).model()
                }));
                return true;
            }
            i = i + 1;
        }
        false
    }

    /// Replaces the selections of the document and tells whether they changed; a change counts as
    /// a new revision.
    pub fn set_selections(&mut self, selections: Selections) -> (changed: bool)
        requires
            old(self).model().revision < u64::MAX,
        ensures
            changed == (old(self).model().document_state matches Some(Some(current)) && current
                != selections.model()),
            final(self).model() == if changed {
                ViewModel {
                    document_state: Some(Some(selections.model())),
                    revision: (old(self).model().revision + 1) as u64,
                    ..old(self).model()
                }
            } else {
                old(self).model()
            },
            view_sound(final(self).model()),
    {
        proof {
            use_type_invariant(&*self);
        }
        let mut state = match &self.document_state {
            Some(state) => state.clone(),
            None => {
                return false;
            },
        };
        match state.replace_selections(selections) {
            Some(true) => {
                self.document_state = Some(state);
                self.touch();
                true
            },
            _ => false,
        }
    }

    /// Counts a new revision.
    pub fn touch(&mut self)
        requires
            old(self).model().revision < u64::MAX,
        ensures
            final(self).model() == (ViewModel {
                revision: (old(self).model().revision + 1) as u64,
                ..old(self).model()
            }),
            view_sound(final(self).model()),
    {
        proof {
            use_type_invariant(&*self);
        }
        self.revision = Revision(self.revision.0 + 1);
    }

    /// Brings back the selections of the document together with their revision.
    pub fn restore_selections_and_revision(&mut self, selections: Selections, revision: Revision)
        ensures
            final(self).model() == if old(self).model().document_state matches Some(Some(_)) {
                ViewModel {
                    document_state: Some(Some(selections.model())),
                    revision: revision.0,
                    ..old(self).model()
                }
            } else {
                old(self).model()
            },
            view_sound(final(self).model()),
    {
        proof {
            use_type_invariant(&*self);
        }
        let mut state = match &self.document_state {
            Some(state) => state.clone(),
            None => {
                return ;
            },
        };
        if state.replace_selections(selections).is_some() {
            self.document_state = Some(state);
            self.revision = revision;
        }
    }
}

impl Clone for View {
    fn clone(&self) -> (copy: Self)
        ensures
            copy.model() == self.model(),
    {
        proof {
            use_type_invariant(self);
        }
        let children = self.children.clone();
        assert(children@ =~= self.children@);
        View {
            definition: self.definition.clone(),
            bindings: self.bindings.clone(),
            document_state: match &self.document_state {
                Some(state) => Some(state.clone()),
                None => None,
            },
            binding_revision: self.binding_revision,
            revision: self.revision,
            panes: self.panes.clone(),
            switchable: self.switchable,
            parent: self.parent,
            children,
        }
    }
}

/// Whether the view is among the views.
pub(crate) fn holds_id(views: &Vec<ViewId>, view: ViewId) -> (holds: bool)
    ensures
        holds == views@.contains(view),
{
    let mut i: usize = 0;
    while i < views.len()
        invariant
            i <= views.len(),
            forall|j: int| 0 <= j < i ==> views@[j] != view,
        decreases views.len() - i,
    {
        if views[i] == view {
            return true;
        }
        i = i + 1;
    }
    false
}

} // verus!
