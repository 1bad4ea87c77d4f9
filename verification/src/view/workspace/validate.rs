//! Checks a workspace.

use crate::protocol::{SpaceId, ViewId};
use crate::text::same_text;
use crate::view::definition::{
    BUFFER_VIEW_DEFINITION, DIFF_VIEW_DEFINITION, LEFT_BINDING, RIGHT_BINDING,
};
use crate::view::forest::{rooted, rooted_within};
use crate::view::instance::{holds_id, View};
use crate::view::layout::{DiffFault, LayoutError, StatusBarPlacement, WorkspaceFault};
use crate::view::panes::{BODY_PANE, STATUS_PANE};
use crate::view::scene::{
    focusable_at, leaves, scene_views, view_at, view_space_focusable, SceneBuilder,
};
use crate::view::soundness::{
    all_agree, diff_agrees, diff_child_fault, diff_fault, diff_fault_holds, family_agrees,
    family_fault, fault_holds, index_agrees, invalid_child, is_child_of, is_first_fault,
    is_sole_status, is_view_fault, law_faults_are_unsound, leaf_fault, leaves_owned, panes_shown,
    sole_status, status_agrees, status_fault, status_of, view_agrees, workspace_sound,
};
use crate::view::workspace::{rising, sorted_keys, ViewWorkspace};
use vstd::prelude::*;
use vstd::view::View as _;

verus! {

broadcast use vstd::std_specs::hash::group_hash_axioms;

impl<B: SceneBuilder> ViewWorkspace<B> {
    /// Checks the leaves of the scene.
    fn check_leaves(&self) -> (result: Result<(), WorkspaceFault>)
        ensures
            match result {
                Ok(_) => {
                    &&& leaves_owned(self.model().nodes, self.model().views)
                    &&& leaf_fault(leaves(self.model().nodes), self.model().views, 0) is None
                },
                Err(fault) => {
                    &&& fault_holds(self.model(), fault)
                    &&& leaf_fault(leaves(self.model().nodes), self.model().views, 0) == Some(fault)
                },
            },
    {
        let list = scene_views(&self.scene);
        let ghost all = leaves(self.model().nodes);
        let mut i: usize = 0;
        while i < list.len()
            invariant
                i <= list.len(),
                list@ == all,
                all == leaves(self.model().nodes),
                forall|j: int|
                    0 <= j < i ==> self.model().views.contains_key((#[trigger] all[j]).view.0)
                        && self.model().views[all[j].view.0].panes.contains_key(all[j].space),
                forall|a: int, b: int|
                    0 <= a < b < i ==> (#[trigger] all[a]).space != (#[trigger] all[b]).space,
                leaf_fault(all, self.model().views, 0) == leaf_fault(
                    all,
                    self.model().views,
                    i as int,
                ),
            decreases list.len() - i,
        {
            let leaf = list[i];
            assert(all[i as int] == leaf);
            match self.view(leaf.view) {
                None => {
                    return Err(
                        WorkspaceFault::MissingViewInScene { space: leaf.space, view: leaf.view },
                    );
                },
                Some(data) => {
                    if data.panes().key_for_space(leaf.space).is_none() {
                        return Err(WorkspaceFault::SpaceWithoutPane(leaf.space));
                    }
                },
            }
            let mut j: usize = 0;
            while j < i
                invariant
                    j <= i,
                    i < list.len(),
                    list@ == all,
                    all == leaves(self.model().nodes),
                    leaf == all[i as int],
                    self.model().views.contains_key(leaf.view.0),
                    self.model().views[leaf.view.0].panes.contains_key(leaf.space),
                    leaf_fault(all, self.model().views, 0) == leaf_fault(
                        all,
                        self.model().views,
                        i as int,
                    ),
                    forall|a: int| 0 <= a < j ==> (#[trigger] all[a]).space != leaf.space,
                decreases i - j,
            {
                if list[j].space == leaf.space {
                    assert(all[j as int].space == all[i as int].space);
                    return Err(WorkspaceFault::DuplicateSpace);
                }
                j = j + 1;
            }
            i = i + 1;
        }
        Ok(())
    }

    /// Checks that every space that the view uses shows it.
    fn check_panes(&self, id: u64, view: &View) -> (result: Result<(), WorkspaceFault>)
        requires
            self.model().views.contains_key(id),
            self.model().views[id] == view.model(),
        ensures
            match result {
                Ok(_) => panes_shown(self.model().nodes, id, view.model()),
                Err(fault) => fault_holds(self.model(), fault) && is_view_fault(
                    self.model(),
                    id,
                    fault,
                ),
            },
    {
        let spaces = view.panes().spaces();
        let mut i: usize = 0;
        while i < spaces.len()
            invariant
                i <= spaces.len(),
                self.model().views.contains_key(id),
                self.model().views[id] == view.model(),
                forall|space: SpaceId|
                    spaces@.contains(space) <==> #[trigger] view.model().panes.contains_key(space),
                forall|j: int|
                    0 <= j < i ==> view_at(self.model().nodes, #[trigger] spaces@[j]) == Some(
                        ViewId(id),
                    ),
            decreases spaces.len() - i,
        {
            let space = spaces[i];
            assert(spaces@.contains(space));
            if self.view_for_space(space) != Some(ViewId(id)) {
                return Err(WorkspaceFault::StalePane { view: ViewId(id), space });
            }
            i = i + 1;
        }
        Ok(())
    }

    /// Checks that the view is a child of its parent and the parent of its children.
    fn check_family(&self, id: u64, view: &View) -> (result: Result<(), WorkspaceFault>)
        requires
            self.model().views.contains_key(id),
            self.model().views[id] == view.model(),
        ensures
            match result {
                Ok(_) => {
                    &&& family_agrees(self.model().views, id)
                    &&& family_fault(self.model().views, id) is None
                },
                Err(fault) => {
                    &&& fault_holds(self.model(), fault)
                    &&& family_fault(self.model().views, id) == Some(fault)
                },
            },
    {
        if let Some(parent_id) = view.parent() {
            match self.view(parent_id) {
                None => {
                    return Err(
                        WorkspaceFault::MissingParent { view: ViewId(id), parent: parent_id },
                    );
                },
                Some(parent) => {
                    if !holds_id(parent.children(), ViewId(id)) {
                        return Err(
                            WorkspaceFault::ForeignChild { parent: parent_id, child: ViewId(id) },
                        );
                    }
                },
            }
        }
        let children = view.children();
        let ghost all = view.model().children;
        let mut i: usize = 0;
        while i < children.len()
            invariant
                i <= children.len(),
                children@ == all,
                all == view.model().children,
                self.model().views.contains_key(id),
                self.model().views[id] == view.model(),
                forall|j: int|
                    0 <= j < i ==> is_child_of(self.model().views, #[trigger] all[j], id),
                forall|a: int, b: int| 0 <= a < b < i ==> all[a] != all[b],
                family_fault(self.model().views, id) == match invalid_child(
                    self.model().views,
                    id,
                    all,
                    i as int,
                ) {
                    Some(child) => Some(WorkspaceFault::InvalidChild { view: ViewId(id), child }),
                    None => None,
                },
            decreases children.len() - i,
        {
            let child = children[i];
            assert(all[i as int] == child);
            assert(all.contains(child));
            let mut j: usize = 0;
            while j < i
                invariant
                    j <= i,
                    i < children.len(),
                    children@ == all,
                    all == view.model().children,
                    child == all[i as int],
                    all.contains(child),
                    self.model().views.contains_key(id),
                    self.model().views[id] == view.model(),
                    forall|a: int| 0 <= a < j ==> all[a] != child,
                    family_fault(self.model().views, id) == match invalid_child(
                        self.model().views,
                        id,
                        all,
                        i as int,
                    ) {
                        Some(child) => Some(
                            WorkspaceFault::InvalidChild { view: ViewId(id), child },
                        ),
                        None => None,
                    },
                decreases i - j,
            {
                if children[j] == child {
                    assert(all[j as int] == all[i as int]);
                    assert(!all.no_duplicates());
                    return Err(WorkspaceFault::InvalidChild { view: ViewId(id), child });
                }
                j = j + 1;
            }
            match self.view(child) {
                Some(data) => {
                    if data.parent() != Some(ViewId(id)) {
                        return Err(WorkspaceFault::InvalidChild { view: ViewId(id), child });
                    }
                },
                None => {
                    return Err(WorkspaceFault::InvalidChild { view: ViewId(id), child });
                },
            }
            i = i + 1;
        }
        Ok(())
    }

    /// Checks the child of a diff view for one of its roles.
    fn check_diff_child(&self, view: &View, role: &str, child: ViewId) -> (result: Result<
        (),
        DiffFault,
    >)
        ensures
            match result {
                Ok(_) => diff_child_fault(self.model().views, view.model(), role@, child) is None,
                Err(fault) => diff_child_fault(self.model().views, view.model(), role@, child)
                    == Some(fault),
            },
    {
        match self.view(child) {
            None => Err(DiffFault::MissingChild),
            Some(data) => {
                if !same_text(data.definition().as_str(), BUFFER_VIEW_DEFINITION)
                    || data.switchable() || data.document_content() != view.binding(role) {
                    Err(DiffFault::InconsistentChild)
                } else {
                    Ok(())
                }
            },
        }
    }

    /// Checks a diff view.
    fn validate_diff_view(&self, view: &View) -> (result: Result<(), DiffFault>)
        ensures
            match result {
                Ok(_) => {
                    &&& diff_agrees(self.model().views, view.model())
                    &&& diff_fault(self.model().views, view.model()) is None
                },
                Err(fault) => {
                    &&& diff_fault_holds(self.model().views, view.model(), fault)
                    &&& diff_fault(self.model().views, view.model()) == Some(fault)
                },
            },
    {
        if !view.switchable() || view.panes().space_for_key(BODY_PANE).is_some()
            || view.panes().space_for_key(STATUS_PANE).is_some() {
            return Err(DiffFault::NotABareParent);
        }
        let children = view.children();
        if children.len() != 2 {
            return Err(DiffFault::WrongChildCount);
        }
        match self.check_diff_child(view, LEFT_BINDING, children[0]) {
            Ok(_) => {},
            Err(fault) => {
                return Err(fault);
            },
        }
        match self.check_diff_child(view, RIGHT_BINDING, children[1]) {
            Ok(_) => {},
            Err(fault) => {
                return Err(fault);
            },
        }
        Ok(())
    }

    /// Checks one view.
    fn check_view(&self, id: u64, view: &View) -> (result: Result<(), WorkspaceFault>)
        requires
            self.model().views.contains_key(id),
            self.model().views[id] == view.model(),
        ensures
            match result {
                Ok(_) => view_agrees(self.model(), id),
                Err(fault) => {
                    &&& fault_holds(self.model(), fault)
                    &&& is_view_fault(self.model(), id, fault)
                    &&& !view_agrees(self.model(), id)
                },
            },
    {
        match self.check_panes(id, view) {
            Ok(_) => {},
            Err(fault) => {
                return Err(fault);
            },
        }
        match self.check_family(id, view) {
            Ok(_) => {},
            Err(fault) => {
                return Err(fault);
            },
        }
        if same_text(view.definition().as_str(), DIFF_VIEW_DEFINITION) {
            match self.validate_diff_view(view) {
                Ok(_) => {},
                Err(fault) => {
                    return Err(WorkspaceFault::Diff { view: ViewId(id), fault });
                },
            }
        }
        Ok(())
    }

    /// Whether going up from the view leads to one that is part of no other.
    fn is_rooted(&self, id: u64) -> (result: bool)
        ensures
            result == rooted(self.model().views, id),
    {
        let ghost views = self.model().views;
        assert(views.dom() =~= self.views@.dom());
        let mut steps: usize = self.views.len();
        let mut current: u64 = id;
        while steps > 0
            invariant
                views == self.model().views,
                rooted(views, id) == rooted_within(views, current, steps as nat),
            decreases steps,
        {
            match self.view(ViewId(current)) {
                None => {
                    return false;
                },
                Some(view) => match view.parent() {
                    None => {
                        return true;
                    },
                    Some(parent) => {
                        current = parent.0;
                    },
                },
            }
            steps = steps - 1;
        }
        false
    }

    /// Checks where status bars are.
    fn check_status(&self) -> (result: Result<(), WorkspaceFault>)
        ensures
            match result {
                Ok(_) => status_agrees(self.model()),
                Err(fault) => {
                    &&& fault_holds(self.model(), fault)
                    &&& status_fault(self.model()) == Some(fault)
                },
            },
    {
        match self.status_placement {
            StatusBarPlacement::Global => {
                if self.global_status_space.is_none() || !self.status_by_editor.is_empty() {
                    return Err(WorkspaceFault::GlobalStatusInconsistent);
                }
                if self.is_sole_status_space(self.global_status_space.unwrap()) {
                    Ok(())
                } else {
                    Err(WorkspaceFault::GlobalStatusStale)
                }
            },
            StatusBarPlacement::PerPane => {
                if self.global_status_space.is_some() {
                    return Err(WorkspaceFault::RetainedGlobalStatus);
                }
                if self.index_is_current() {
                    Ok(())
                } else {
                    Err(WorkspaceFault::StatusIndexMismatch)
                }
            },
        }
    }

    /// Whether one view, and no other, uses that space as its status bar.
    fn is_sole_status_space(&self, space: SpaceId) -> (result: bool)
        ensures
            result == sole_status(self.model().views, space),
    {
        let ghost views = self.model().views;
        let ids = sorted_keys(&self.views);
        let mut owner: Option<u64> = None;
        let mut i: usize = 0;
        while i < ids.len()
            invariant
                i <= ids.len(),
                views == self.model().views,
                rising(ids@),
                forall|id: u64| ids@.contains(id) <==> #[trigger] self.views@.contains_key(id),
                match owner {
                    Some(id) => {
                        &&& exists|k: int| 0 <= k < i && ids@[k] == id
                        &&& status_of(views[id]) == Some(space)
                        &&& forall|k: int|
                            0 <= k < i && #[trigger] ids@[k] != id ==> status_of(views[ids@[k]])
                                is None
                    },
                    None => forall|k: int|
                        0 <= k < i ==> status_of(views[#[trigger] ids@[k]]) is None,
                },
            decreases ids.len() - i,
        {
            let id = ids[i];
            assert(ids@.contains(id));
            if let Some(view) = self.view(ViewId(id)) {
                if let Some(status) = view.panes().space_for_key(STATUS_PANE) {
                    if owner.is_some() || status != space {
                        proof {
                            if sole_status(views, space) {
                                let sole = choose|sole: u64| is_sole_status(views, space, sole);
                                assert(sole == id);
                                if owner is Some {
                                    assert(ids@.contains(owner->0));
                                }
                            }
                        }
                        return false;
                    }
                    owner = Some(id);
                    assert(ids@[i as int] == id);
                }
            }
            i = i + 1;
        }
        match owner {
            Some(id) => {
                proof {
                    assert forall|other: u64| #[trigger]
                        views.contains_key(other) && other != id implies status_of(
                        views[other],
                    ) is None by {
                        assert(ids@.contains(other));
                        let k = choose|k: int| 0 <= k < ids@.len() && ids@[k] == other;
                    }
                    assert(ids@.contains(id));
                    assert(is_sole_status(views, space, id));
                }
                true
            },
            None => {
                proof {
                    if sole_status(views, space) {
                        let sole = choose|sole: u64| is_sole_status(views, space, sole);
                        assert(ids@.contains(sole));
                        let k = choose|k: int| 0 <= k < ids@.len() && ids@[k] == sole;
                    }
                }
                false
            },
        }
    }

    /// Whether the index of status bars is what the views use.
    fn index_is_current(&self) -> (result: bool)
        ensures
            result == index_agrees(self.model().views, self.model().status_by_editor),
    {
        let ghost views = self.model().views;
        let ghost index = self.status_by_editor@;
        let indexed = sorted_keys(&self.status_by_editor);
        let mut i: usize = 0;
        while i < indexed.len()
            invariant
                i <= indexed.len(),
                views == self.model().views,
                index == self.status_by_editor@,
                forall|id: u64| indexed@.contains(id) <==> #[trigger] index.contains_key(id),
                forall|k: int| 0 <= k < i ==> views.contains_key(#[trigger] indexed@[k]),
            decreases indexed.len() - i,
        {
            assert(indexed@.contains(indexed@[i as int]));
            if self.view(ViewId(indexed[i])).is_none() {
                assert(index.contains_key(indexed@[i as int]));
                return false;
            }
            i = i + 1;
        }
        assert forall|id: u64| #[trigger] index.contains_key(id) implies views.contains_key(id) by {
            assert(indexed@.contains(id));
        }
        let ids = sorted_keys(&self.views);
        let mut j: usize = 0;
        while j < ids.len()
            invariant
                j <= ids.len(),
                views == self.model().views,
                index == self.status_by_editor@,
                forall|id: u64| ids@.contains(id) <==> #[trigger] self.views@.contains_key(id),
                forall|k: int|
                    0 <= k < j ==> status_of(views[#[trigger] ids@[k]]) == if index.contains_key(
                        ids@[k],
                    ) {
                        Some(index[ids@[k]])
                    } else {
                        None
                    },
            decreases ids.len() - j,
        {
            let id = ids[j];
            assert(ids@.contains(id));
            if let Some(view) = self.view(ViewId(id)) {
                let used = view.panes().space_for_key(STATUS_PANE);
                let known = match self.status_by_editor.get(&id) {
                    Some(space) => Some(*space),
                    None => None,
                };
                if used != known {
                    assert(views.contains_key(id));
                    return false;
                }
            }
            j = j + 1;
        }
        assert forall|id: u64| #[trigger] views.contains_key(id) implies status_of(views[id])
            == if index.contains_key(id) {
            Some(index[id])
        } else {
            None
        } by {
            assert(ids@.contains(id));
        }
        true
    }

    /// Checks the whole workspace.
    pub fn validate(&self) -> (result: Result<(), LayoutError>)
        ensures
            result is Ok <==> workspace_sound(self.model()),
            result matches Err(error) ==> error is InvalidWorkspace && is_first_fault(
                self.model(),
                error->InvalidWorkspace_0,
            ),
    {
        match self.find_fault() {
            None => Ok(()),
            Some(fault) => {
                proof {
                    law_faults_are_unsound(self.model(), fault);
                }
                Err(LayoutError::InvalidWorkspace(fault))
            },
        }
    }

    /// What is wrong with the workspace, if anything.
    fn find_fault(&self) -> (fault: Option<WorkspaceFault>)
        ensures
            match fault {
                None => workspace_sound(self.model()),
                Some(fault) => fault_holds(self.model(), fault) && is_first_fault(
                    self.model(),
                    fault,
                ),
            },
    {
        if view_space_focusable(&self.scene, self.focused) != Some(true) {
            return Some(WorkspaceFault::FocusNotFocusable);
        }
        match self.check_leaves() {
            Ok(_) => {},
            Err(fault) => {
                return Some(fault);
            },
        }
        let ghost views = self.model().views;
        let ids = sorted_keys(&self.views);
        let mut i: usize = 0;
        while i < ids.len()
            invariant
                i <= ids.len(),
                views == self.model().views,
                focusable_at(self.model().nodes, self.model().focused) == Some(true),
                leaf_fault(leaves(self.model().nodes), views, 0) is None,
                forall|id: u64| ids@.contains(id) <==> #[trigger] self.views@.contains_key(id),
                forall|k: int| 0 <= k < i ==> view_agrees(self.model(), #[trigger] ids@[k]),
            decreases ids.len() - i,
        {
            assert(ids@.contains(ids@[i as int]));
            if let Some(view) = self.view(ViewId(ids[i])) {
                match self.check_view(ids[i], view) {
                    Ok(_) => {},
                    Err(fault) => {
                        proof {
                            assert(views.contains_key(ids@[i as int]));
                            assert(!all_agree(self.model()));
                        }
                        return Some(fault);
                    },
                }
            }
            i = i + 1;
        }
        assert forall|id: u64| #[trigger] views.contains_key(id) implies view_agrees(
            self.model(),
            id,
        ) by {
            assert(ids@.contains(id));
        }
        let mut j: usize = 0;
        while j < ids.len()
            invariant
                j <= ids.len(),
                views == self.model().views,
                focusable_at(self.model().nodes, self.model().focused) == Some(true),
                leaf_fault(leaves(self.model().nodes), views, 0) is None,
                all_agree(self.model()),
                forall|id: u64| ids@.contains(id) <==> #[trigger] self.views@.contains_key(id),
                forall|k: int| 0 <= k < j ==> rooted(views, #[trigger] ids@[k]),
            decreases ids.len() - j,
        {
            assert(ids@.contains(ids@[j as int]));
            if !self.is_rooted(ids[j]) {
                assert(views.contains_key(ids@[j as int]));
                return Some(WorkspaceFault::ParentCycle);
            }
            j = j + 1;
        }
        proof {
            assert forall|id: u64| #[trigger] views.contains_key(id) implies rooted(
                views,
                id,
            ) by {
                assert(ids@.contains(id));
            }
        }
        match self.check_status() {
            Ok(_) => None,
            Err(fault) => Some(fault),
        }
    }
}

} // verus!
