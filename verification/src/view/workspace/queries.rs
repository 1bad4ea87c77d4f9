//! What a workspace can be asked.

use crate::protocol::{ContentId, SpaceId, ViewId};
use crate::text::same_text;
use crate::view::definition::BindingKey;
use crate::view::forest::{
    covered, covered_within, is_forest, law_forest_has_subtrees, law_switch_target_is_switchable,
    listed, numbers_of, subtree, switch_target, switchable_above, SubtreeFault,
};
use crate::view::instance::{document_of, View, ViewModel};
use crate::view::layout::{LayoutError, StatusBarHandle, StatusBarPlacement, WorkspaceFault};
use crate::view::panes::{key_for, space_for, BODY_PANE};
use crate::view::scene::{
    focusable_at, leaves, lemma_shown_is_leaf, scene_views, view_at, view_space_focusable, Leaf,
    SceneBuilder, SceneError,
};
use crate::view::soundness::{view_agrees, workspace_sound, WorkspaceModel};
use crate::view::workspace::{rising, sorted_keys, ViewWorkspace};
use vstd::prelude::*;
use vstd::view::View as _;

verus! {

broadcast use vstd::std_specs::hash::group_hash_axioms;

/// The status bar that a view has.
pub open spec fn status_bar(workspace: WorkspaceModel, editor: u64) -> Option<StatusBarHandle> {
    let space = match workspace.placement {
        StatusBarPlacement::Global => workspace.global_status,
        StatusBarPlacement::PerPane => if workspace.status_by_editor.contains_key(editor) {
            Some(workspace.status_by_editor[editor])
        } else {
            None
        },
    };
    if !workspace.views.contains_key(editor) || space is None {
        None
    } else {
        match view_at(workspace.nodes, space->0) {
            Some(target) => if workspace.views.contains_key(target.0) {
                match document_of(workspace.views[target.0]) {
                    Some(content) => Some(
                        StatusBarHandle { space: space->0, target_view: target, content },
                    ),
                    None => None,
                }
            } else {
                None
            },
            None => None,
        }
    }
}

/// The status bar belongs to some view on the content.
pub open spec fn shows_content(
    workspace: WorkspaceModel,
    content: ContentId,
    bar: StatusBarHandle,
) -> bool {
    exists|id: u64| #[trigger]
        workspace.views.contains_key(id) && document_of(workspace.views[id]) == Some(content)
            && status_bar(workspace, id) == Some(bar)
}

/// The space that a view uses as its main area.
pub open spec fn body_space(workspace: WorkspaceModel, view: u64) -> Option<SpaceId> {
    if workspace.views.contains_key(view) {
        space_for(workspace.views[view].panes, BODY_PANE@)
    } else {
        None
    }
}

/// The first of the views, from index `i` on, that has a main area.
pub open spec fn first_body(workspace: WorkspaceModel, views: Seq<u64>, i: int) -> Option<SpaceId>
    decreases views.len() - i,
{
    if i >= views.len() {
        None
    } else {
        match body_space(workspace, views[i]) {
            Some(space) => Some(space),
            None => first_body(workspace, views, i + 1),
        }
    }
}

/// The space in which a view, with all that is part of it, is replaced: its main area, else the
/// focused one, where it belongs to it, else the first one of its parts.
pub open spec fn replacement_space(workspace: WorkspaceModel, view: u64) -> Option<SpaceId> {
    match body_space(workspace, view) {
        Some(space) => Some(space),
        None => match subtree(workspace.views, view) {
            Err(_) => None,
            Ok(list) => match view_at(workspace.nodes, workspace.focused) {
                None => None,
                Some(focused) => if list.contains(focused.0) && key_for(
                    workspace.views[focused.0].panes,
                    workspace.focused,
                ) == Some(BODY_PANE@) {
                    Some(workspace.focused)
                } else {
                    first_body(workspace, list, 0)
                },
            },
        },
    }
}

/// Why a space cannot be split, closed or replaced: it is no leaf, or not the main area of its
/// view.
pub open spec fn body_refusal(workspace: WorkspaceModel, target: SpaceId) -> Option<LayoutError> {
    match view_at(workspace.nodes, target) {
        None => Some(LayoutError::Scene(SceneError::ExpectedContentLeaf(target))),
        Some(view) => if key_for(workspace.views[view.0].panes, target) == Some(BODY_PANE@) {
            None
        } else {
            Some(LayoutError::StatusBarSpace(target))
        },
    }
}

/// Why what a space shows cannot be closed or replaced.
pub open spec fn subtree_refusal(workspace: WorkspaceModel, target: SpaceId) -> Option<
    LayoutError,
> {
    match body_refusal(workspace, target) {
        Some(error) => Some(error),
        None => match view_at(workspace.nodes, target) {
            Some(view) => if switch_target(workspace.views, view.0) is None {
                Some(LayoutError::InvalidWorkspace(WorkspaceFault::NoSwitchableOwner(view)))
            } else {
                None
            },
            None => None,
        },
    }
}

/// The view that is closed or replaced in the place of what a space shows.
pub open spec fn subtree_root(workspace: WorkspaceModel, target: SpaceId) -> u64 {
    match view_at(workspace.nodes, target) {
        Some(view) => match switch_target(workspace.views, view.0) {
            Some(root) => root,
            None => 0,
        },
        None => 0,
    }
}

/// Some leaf that can have the focus shows a view that is not among `removed`.
pub open spec fn focus_remains(workspace: WorkspaceModel, removed: Set<u64>) -> bool {
    exists|i: int|
        0 <= i < leaves(workspace.nodes).len() && !removed.contains(
            (#[trigger] leaves(workspace.nodes)[i]).view.0,
        ) && focusable_at(workspace.nodes, leaves(workspace.nodes)[i].space) == Some(true)
}

/// The view edits the content, but nothing can be switched in its place.
pub open spec fn without_owner(workspace: WorkspaceModel, content: ContentId, view: u64) -> bool {
    &&& workspace.views.contains_key(view)
    &&& document_of(workspace.views[view]) == Some(content)
    &&& switch_target(workspace.views, view) is None
}

/// The view is switched in the place of one that edits the content.
pub open spec fn is_target(workspace: WorkspaceModel, content: ContentId, target: u64) -> bool {
    exists|view: u64| #[trigger]
        workspace.views.contains_key(view) && document_of(workspace.views[view]) == Some(content)
            && switch_target(workspace.views, view) == Some(target)
}

/// The views that go with the content.
pub open spec fn targets_of(workspace: WorkspaceModel, content: ContentId) -> Set<u64> {
    Set::new(|target: u64| is_target(workspace, content, target))
}

/// The view goes with the content, and is not part of another one that does.
pub open spec fn is_removal_root(
    workspace: WorkspaceModel,
    content: ContentId,
    view: u64,
) -> bool {
    is_target(workspace, content, view) && !covered(
        workspace.views,
        targets_of(workspace, content),
        view,
    )
}

/// The view goes with the content, or is part of one that does.
pub open spec fn goes_with(workspace: WorkspaceModel, content: ContentId, view: u64) -> bool {
    exists|root: u64| #[trigger]
        is_removal_root(workspace, content, root) && subtree(workspace.views, root) is Ok
            && subtree(workspace.views, root)->Ok_0.contains(view)
}

/// All views that go with the content.
pub open spec fn removed_with(workspace: WorkspaceModel, content: ContentId) -> Set<u64> {
    Set::new(|view: u64| goes_with(workspace, content, view))
}

/// The first role of the view that is bound to the content.
pub open spec fn first_reference(view: ViewModel, content: ContentId, i: int) -> Option<Seq<char>>
    decreases view.bindings.len() - i,
{
    if i >= view.bindings.len() {
        None
    } else if view.bindings[i].content == content {
        Some(view.bindings[i].role)
    } else {
        first_reference(view, content, i + 1)
    }
}

/// The view would stay when the content goes, and refers to it.
pub open spec fn blocks(workspace: WorkspaceModel, content: ContentId, view: u64) -> bool {
    &&& workspace.views.contains_key(view)
    &&& !goes_with(workspace, content, view)
    &&& first_reference(workspace.views[view], content, 0) is Some
}

/// In a workspace in order the views are a forest.
pub proof fn lemma_sound_forest(workspace: WorkspaceModel)
    requires
        workspace_sound(workspace),
        workspace.views.dom().finite(),
    ensures
        is_forest(workspace.views),
{
    assert forall|id: u64| #[trigger]
        workspace.views.contains_key(id) implies crate::view::soundness::family_agrees(
        workspace.views,
        id,
    ) && crate::view::forest::rooted(workspace.views, id) by {
        assert(view_agrees(workspace, id));
    }
}

/// Every leaf of a workspace in order shows a view that is there.
pub proof fn lemma_shown_view_is_there(workspace: WorkspaceModel, space: SpaceId, view: ViewId)
    requires
        workspace_sound(workspace),
        view_at(workspace.nodes, space) == Some(view),
    ensures
        workspace.views.contains_key(view.0),
        workspace.views[view.0].panes.contains_key(space),
{
    lemma_shown_is_leaf(workspace.nodes, space, view);
    let list = leaves(workspace.nodes);
    let leaf = Leaf { space, view };
    let k = choose|k: int| 0 <= k < list.len() && list[k] == leaf;
    assert(list[k] == leaf);
}

/// Adds a number to rising ones, where it is not there.
pub(crate) fn insert_rising(numbers: &mut Vec<u64>, number: u64)
    requires
        rising(old(numbers)@),
    ensures
        rising(final(numbers)@),
        forall|other: u64|
            #[trigger] final(numbers)@.contains(other) <==> other == number || old(
                numbers,
            )@.contains(other),
{
    let ghost before = numbers@;
    let mut at: usize = numbers.len();
    while at > 0 && numbers[at - 1] > number
        invariant
            at <= numbers.len(),
            before == numbers@,
            rising(before),
            forall|i: int| at <= i < before.len() ==> before[i] > number,
        decreases at,
    {
        at = at - 1;
    }
    if at > 0 && numbers[at - 1] == number {
        assert(before.contains(number)) by {
            assert(before[at - 1] == number);
        }
        return ;
    }
    numbers.insert(at, number);
    proof {
        let after = numbers@;
        assert(after == before.insert(at as int, number));
        assert forall|other: u64| #[trigger] after.contains(other) <==> other == number
            || before.contains(other) by {
            if after.contains(other) && other != number {
                let k = choose|k: int| 0 <= k < after.len() && after[k] == other;
                let j = if k < at {
                    k
                } else {
                    k - 1
                };
                assert(before[j] == other);
            }
            if before.contains(other) {
                let k = choose|k: int| 0 <= k < before.len() && before[k] == other;
                let j = if k < at {
                    k
                } else {
                    k + 1
                };
                assert(after[j] == other);
            }
            if other == number {
                assert(after[at as int] == other);
            }
        }
    }
}

/// Whether the number is among the numbers.
pub(crate) fn holds_number(numbers: &Vec<u64>, number: u64) -> (holds: bool)
    ensures
        holds == numbers@.contains(number),
{
    let mut i: usize = 0;
    while i < numbers.len()
        invariant
            i <= numbers.len(),
            forall|j: int| 0 <= j < i ==> numbers@[j] != number,
        decreases numbers.len() - i,
    {
        if numbers[i] == number {
            return true;
        }
        i = i + 1;
    }
    false
}

/// Bars come in the order of their spaces, each space once.
spec fn bars_rise(bars: Seq<StatusBarHandle>) -> bool {
    forall|i: int, j: int|
        0 <= i < j < bars.len() ==> (#[trigger] bars[i]).space.0 < (#[trigger] bars[j]).space.0
}

/// Adds a status bar, where none with its space is there.
fn insert_bar(bars: &mut Vec<StatusBarHandle>, bar: StatusBarHandle)
    requires
        bars_rise(old(bars)@),
    ensures
        bars_rise(final(bars)@),
        forall|other: StatusBarHandle| #[trigger]
            final(bars)@.contains(other) ==> other == bar || old(bars)@.contains(other),
        forall|other: StatusBarHandle|
            old(bars)@.contains(other) ==> #[trigger] final(bars)@.contains(other),
        final(bars)@.contains(bar) || exists|k: int|
            0 <= k < old(bars)@.len() && (#[trigger] old(bars)@[k]).space == bar.space,
{
    let ghost before = bars@;
    let mut at: usize = bars.len();
    while at > 0 && bars[at - 1].space.0 > bar.space.0
        invariant
            at <= bars.len(),
            before == bars@,
            bars_rise(before),
            forall|i: int| at <= i < before.len() ==> (#[trigger] before[i]).space.0 > bar.space.0,
        decreases at,
    {
        at = at - 1;
    }
    if at > 0 && bars[at - 1].space.0 == bar.space.0 {
        assert(before[at - 1].space == bar.space);
        return ;
    }
    bars.insert(at, bar);
    proof {
        let after = bars@;
        assert(after == before.insert(at as int, bar));
        assert(after[at as int] == bar);
        assert forall|other: StatusBarHandle| #[trigger] after.contains(other) implies other == bar
            || before.contains(other) by {
            let k = choose|k: int| 0 <= k < after.len() && after[k] == other;
            if k < at {
                assert(before[k] == other);
            } else if k > at {
                assert(before[k - 1] == other);
            }
        }
        assert forall|other: StatusBarHandle| before.contains(other) implies #[trigger]
            after.contains(other) by {
            let k = choose|k: int| 0 <= k < before.len() && before[k] == other;
            if k < at {
                assert(after[k] == other);
            } else {
                assert(after[k + 1] == other);
            }
        }
    }
}

impl<B: SceneBuilder> ViewWorkspace<B> {
    /// The status bar that a view has.
    pub fn status_bar_for_view(&self, editor: ViewId) -> (bar: Option<StatusBarHandle>)
        ensures
            bar == status_bar(self.model(), editor.0),
    {
        if !self.views.contains_key(&editor.0) {
            return None;
        }
        let space = match self.status_placement {
            StatusBarPlacement::Global => self.global_status_space?,
            StatusBarPlacement::PerPane => match self.status_by_editor.get(&editor.0) {
                Some(space) => *space,
                None => {
                    return None;
                },
            },
        };
        let target_view = self.view_for_space(space)?;
        let content = self.view(target_view)?.document_content()?;
        Some(StatusBarHandle { space, target_view, content })
    }

    /// The status bars of the views on a content, each once, the one with the smallest space
    /// first.
    pub fn status_bars_for_content(&self, content: ContentId) -> (bars: Vec<StatusBarHandle>)
        ensures
            forall|i: int, j: int|
                0 <= i < j < bars@.len() ==> (#[trigger] bars@[i]).space.0 < (
                #[trigger] bars@[j]).space.0,
            forall|bar: StatusBarHandle|
                bars@.contains(bar) <==> #[trigger] shows_content(self.model(), content, bar),
    {
        let ghost model = self.model();
        let ids = sorted_keys(&self.views);
        let mut bars: Vec<StatusBarHandle> = Vec::new();
        let mut i: usize = 0;
        while i < ids.len()
            invariant
                i <= ids.len(),
                model == self.model(),
                forall|id: u64| ids@.contains(id) <==> #[trigger] self.views@.contains_key(id),
                forall|a: int, b: int|
                    0 <= a < b < bars@.len() ==> (#[trigger] bars@[a]).space.0 < (
                    #[trigger] bars@[b]).space.0,
                forall|bar: StatusBarHandle| #[trigger]
                    bars@.contains(bar) ==> shows_content(model, content, bar),
                forall|k: int|
                    0 <= k < i && document_of(model.views[#[trigger] ids@[k]]) == Some(content)
                        && status_bar(model, ids@[k]) is Some ==> bars@.contains(
                        status_bar(model, ids@[k])->0,
                    ),
            decreases ids.len() - i,
        {
            let id = ids[i];
            assert(ids@.contains(id));
            assert(model.views.contains_key(id));
            let matches = match self.view(ViewId(id)) {
                Some(view) => view.document_content() == Some(content),
                None => false,
            };
            if matches {
                if let Some(bar) = self.status_bar_for_view(ViewId(id)) {
                    assert(shows_content(model, content, bar));
                    let ghost before = bars@;
                    insert_bar(&mut bars, bar);
                    proof {
                        if !bars@.contains(bar) {
                            let k = choose|k: int|
                                0 <= k < before.len() && (#[trigger] before[k]).space == bar.space;
                            assert(before.contains(before[k]));
                            lemma_bar_by_space(model, content, before[k], bar);
                        }
                    }
                    assert forall|k: int|
                        0 <= k < i && document_of(model.views[#[trigger] ids@[k]]) == Some(content)
                            && status_bar(model, ids@[k]) is Some implies bars@.contains(
                        status_bar(model, ids@[k])->0,
                    ) by {
                        assert(before.contains(status_bar(model, ids@[k])->0));
                    }
                }
            }
            i = i + 1;
        }
        proof {
            assert forall|bar: StatusBarHandle|
                bars@.contains(bar) <==> #[trigger] shows_content(model, content, bar) by {
                if shows_content(model, content, bar) {
                    let id = choose|id: u64| #[trigger]
                        model.views.contains_key(id) && document_of(model.views[id]) == Some(
                            content,
                        ) && status_bar(model, id) == Some(bar);
                    assert(ids@.contains(id));
                    let k = choose|k: int| 0 <= k < ids@.len() && ids@[k] == id;
                    assert(ids@[k] == id);
                }
            }
        }
        bars
    }

    /// Whether the focus can go to a space.
    pub fn is_focusable(&self, target: SpaceId) -> (focusable: bool)
        ensures
            focusable == (focusable_at(self.model().nodes, target) == Some(true)),
    {
        view_space_focusable(&self.scene, target) == Some(true)
    }

    /// The view that is switched for another one in the place of `view`.
    pub fn switch_target_from_view(&self, view: ViewId) -> (target: Option<ViewId>)
        ensures
            match target {
                Some(target) => switch_target(self.model().views, view.0) == Some(target.0),
                None => switch_target(self.model().views, view.0) is None,
            },
    {
        let ghost views = self.model().views;
        assert(views.dom() =~= self.views@.dom());
        let mut steps: usize = self.views.len();
        let mut current: ViewId = view;
        while steps > 0
            invariant
                views == self.model().views,
                switch_target(views, view.0) == switchable_above(views, current.0, steps as nat),
            decreases steps,
        {
            match self.view(current) {
                None => {
                    return None;
                },
                Some(data) => {
                    if data.switchable() {
                        return Some(current);
                    }
                    match data.parent() {
                        None => {
                            return None;
                        },
                        Some(parent) => {
                            current = parent;
                        },
                    }
                },
            }
            steps = steps - 1;
        }
        None
    }

    /// The view that is switched for another one in the place of what a space shows.
    pub fn switch_target(&self, space: SpaceId) -> (target: Option<ViewId>)
        ensures
            match target {
                Some(target) => view_at(self.model().nodes, space) matches Some(view)
                    && switch_target(self.model().views, view.0) == Some(target.0),
                None => view_at(self.model().nodes, space) matches Some(view) ==> switch_target(
                    self.model().views,
                    view.0,
                ) is None,
            },
    {
        let view = self.view_for_space(space)?;
        self.switch_target_from_view(view)
    }

    /// The space that a view uses as its main area.
    pub fn body_space_for_view(&self, view: ViewId) -> (space: Option<SpaceId>)
        ensures
            space == body_space(self.model(), view.0),
    {
        self.view(view)?.panes().space_for_key(BODY_PANE)
    }

    /// A view and everything that is part of it, each view before its children.
    pub fn semantic_subtree(&self, root: ViewId) -> (result: Result<Vec<ViewId>, LayoutError>)
        ensures
            match result {
                Ok(list) => subtree(self.model().views, root.0) == Ok::<Seq<u64>, SubtreeFault>(
                    numbers_of(list@),
                ),
                Err(error) => match subtree(self.model().views, root.0) {
                    Ok(_) => false,
                    Err(SubtreeFault::Cycle) => error == LayoutError::InvalidWorkspace(
                        WorkspaceFault::SubtreeCycle,
                    ),
                    Err(SubtreeFault::Missing(id)) => error == LayoutError::MissingView(ViewId(id)),
                },
            },
    {
        let ghost views = self.model().views;
        assert(views.dom() =~= self.views@.dom());
        let total = self.views.len();
        let mut list: Vec<ViewId> = Vec::new();
        let mut stack: Vec<ViewId> = Vec::new();
        stack.push(root);
        let ghost mut steps: nat = (views.dom().len() + 1) as nat;
        assert(numbers_of(stack@) =~= seq![root.0]);
        assert(numbers_of(list@) =~= Seq::empty());
        while stack.len() > 0
            invariant
                views == self.model().views,
                views.dom() == self.views@.dom(),
                total == views.dom().len(),
                views.dom().finite(),
                steps + list@.len() == total + 1,
                numbers_of(list@).no_duplicates(),
                forall|i: int|
                    0 <= i < list@.len() ==> views.contains_key((#[trigger] list@[i]).0),
                subtree(views, root.0) == listed(
                    views,
                    numbers_of(stack@),
                    numbers_of(list@),
                    steps,
                ),
            decreases steps,
        {
            let ghost stacked = numbers_of(stack@);
            let ghost seen = numbers_of(list@);
            proof {
                lemma_list_within_views(views, seen);
            }
            let view = match stack.pop() {
                Some(view) => view,
                None => vstd::pervasive::unreached(),
            };
            assert(stacked.last() == view.0);
            assert(numbers_of(stack@) =~= stacked.drop_last());
            if crate::view::instance::holds_id(&list, view) {
                proof {
                    let k = choose|k: int| 0 <= k < list@.len() && list@[k] == view;
                    assert(seen[k] == view.0);
                }
                return Err(LayoutError::InvalidWorkspace(WorkspaceFault::SubtreeCycle));
            }
            proof {
                if seen.contains(view.0) {
                    let k = choose|k: int| 0 <= k < seen.len() && seen[k] == view.0;
                    assert(list@[k] == view);
                }
            }
            match self.view(view) {
                None => {
                    return Err(LayoutError::MissingView(view));
                },
                Some(data) => {
                    let ghost listed_before = list@;
                    list.push(view);
                    let children = data.children();
                    let ghost kids = numbers_of(children@);
                    let ghost rest = numbers_of(stack@);
                    let mut i: usize = children.len();
                    assert(rest + kids.reverse().take(0) =~= rest);
                    while i > 0
                        invariant
                            i <= children.len(),
                            kids == numbers_of(children@),
                            numbers_of(stack@) == rest + kids.reverse().take(children.len() - i),
                        decreases i,
                    {
                        i = i - 1;
                        let ghost above = numbers_of(stack@);
                        stack.push(children[i]);
                        assert(kids.reverse()[children.len() - 1 - i] == children@[i as int].0);
                        assert(numbers_of(stack@) =~= above.push(children@[i as int].0));
                        assert(numbers_of(stack@) =~= rest + kids.reverse().take(
                            children.len() - i,
                        ));
                    }
                    proof {
                        assert(kids.reverse().take(children.len() as int) =~= kids.reverse());
                        assert(numbers_of(list@) =~= seen.push(view.0));
                        steps = (steps - 1) as nat;
                    }
                },
            }
        }
        assert(numbers_of(stack@) =~= Seq::empty());
        Ok(list)
    }

    /// The space in which a view, with all that is part of it, is replaced.
    pub fn replacement_space_for_view(&self, view: ViewId) -> (space: Option<SpaceId>)
        requires
            self.valid(),
        ensures
            space == replacement_space(self.model(), view.0),
    {
        if let Some(space) = self.body_space_for_view(view) {
            return Some(space);
        }
        let list = match self.semantic_subtree(view) {
            Ok(list) => list,
            Err(_) => {
                return None;
            },
        };
        let ghost numbers = numbers_of(list@);
        let focused = self.view_for_space(self.focused)?;
        proof {
            lemma_shown_view_is_there(self.model(), self.focused, focused);
        }
        let inside = crate::view::instance::holds_id(&list, focused);
        assert(inside == numbers.contains(focused.0)) by {
            if inside {
                let k = choose|k: int| 0 <= k < list@.len() && list@[k] == focused;
                assert(numbers[k] == focused.0);
            }
            if numbers.contains(focused.0) {
                let k = choose|k: int| 0 <= k < numbers.len() && numbers[k] == focused.0;
                assert(list@[k] == focused);
            }
        }
        if inside && self.is_body(focused, self.focused) {
            return Some(self.focused);
        }
        let mut i: usize = 0;
        while i < list.len()
            invariant
                i <= list.len(),
                numbers == numbers_of(list@),
                replacement_space(self.model(), view.0) == first_body(
                    self.model(),
                    numbers,
                    i as int,
                ),
            decreases list.len() - i,
        {
            assert(numbers[i as int] == list@[i as int].0);
            if let Some(space) = self.body_space_for_view(list[i]) {
                return Some(space);
            }
            i = i + 1;
        }
        None
    }

    /// Whether a view uses a space as its main area.
    pub(crate) fn is_body(&self, view: ViewId, space: SpaceId) -> (body: bool)
        requires
            self.model().views.contains_key(view.0),
        ensures
            body == (key_for(self.model().views[view.0].panes, space) == Some(BODY_PANE@)),
    {
        match self.view(view) {
            Some(data) => match data.panes().key_for_space(space) {
                Some(key) => same_text(key, BODY_PANE),
                None => false,
            },
            None => false,
        }
    }

    /// Refuses a space that is not the main area of a view.
    pub(crate) fn reject_non_body_space(&self, target: SpaceId) -> (result: Result<
        (),
        LayoutError,
    >)
        requires
            self.valid(),
        ensures
            match result {
                Ok(_) => body_refusal(self.model(), target) is None,
                Err(error) => body_refusal(self.model(), target) == Some(error),
            },
    {
        match self.view_for_space(target) {
            None => Err(LayoutError::Scene(SceneError::ExpectedContentLeaf(target))),
            Some(view) => {
                proof {
                    lemma_shown_view_is_there(self.model(), target, view);
                }
                if self.is_body(view, target) {
                    Ok(())
                } else {
                    Err(LayoutError::StatusBarSpace(target))
                }
            },
        }
    }

    /// The view that is closed or replaced in the place of what a space shows.
    pub(crate) fn validate_subtree_target(&self, target: SpaceId) -> (result: Result<
        ViewId,
        LayoutError,
    >)
        requires
            self.valid(),
        ensures
            match result {
                Ok(root) => {
                    &&& subtree_refusal(self.model(), target) is None
                    &&& root.0 == subtree_root(self.model(), target)
                    &&& view_at(self.model().nodes, target) is Some
                    &&& self.model().views.contains_key(root.0)
                },
                Err(error) => subtree_refusal(self.model(), target) == Some(error),
            },
    {
        match self.reject_non_body_space(target) {
            Ok(_) => {},
            Err(error) => {
                return Err(error);
            },
        }
        match self.view_for_space(target) {
            None => Err(LayoutError::Scene(SceneError::ExpectedContentLeaf(target))),
            Some(source) => match self.switch_target_from_view(source) {
                Some(root) => {
                    proof {
                        law_switch_target_is_switchable(
                            self.model().views,
                            source.0,
                            self.model().views.dom().len(),
                        );
                    }
                    Ok(root)
                },
                None => Err(
                    LayoutError::InvalidWorkspace(WorkspaceFault::NoSwitchableOwner(source)),
                ),
            },
        }
    }
}

/// The views of a list, as a set.
pub open spec fn view_set(views: Seq<ViewId>) -> Set<u64> {
    numbers_of(views).to_set()
}

impl<B: SceneBuilder> ViewWorkspace<B> {
    /// Whether some leaf that can have the focus shows a view that is not among `removed`.
    pub(crate) fn has_focus_outside(&self, removed: &Vec<ViewId>) -> (remains: bool)
        ensures
            remains == focus_remains(self.model(), view_set(removed@)),
    {
        let list = scene_views(&self.scene);
        let ghost all = leaves(self.model().nodes);
        let ghost gone = view_set(removed@);
        let mut i: usize = 0;
        while i < list.len()
            invariant
                i <= list.len(),
                list@ == all,
                all == leaves(self.model().nodes),
                gone == view_set(removed@),
                forall|j: int|
                    0 <= j < i ==> gone.contains((#[trigger] all[j]).view.0) || focusable_at(
                        self.model().nodes,
                        all[j].space,
                    ) != Some(true),
            decreases list.len() - i,
        {
            let leaf = list[i];
            assert(all[i as int] == leaf);
            let inside = crate::view::instance::holds_id(removed, leaf.view);
            proof {
                lemma_view_set(removed@, leaf.view);
            }
            if !inside && view_space_focusable(&self.scene, leaf.space) == Some(true) {
                return true;
            }
            i = i + 1;
        }
        false
    }

    /// Checks that what a space shows can be closed.
    pub fn validate_close(&self, target: SpaceId) -> (result: Result<(), LayoutError>)
        requires
            self.valid(),
        ensures
            match result {
                Ok(_) => close_refusal(self.model(), target) is None,
                Err(error) => close_refusal(self.model(), target) == Some(error),
            },
    {
        let root = match self.validate_subtree_target(target) {
            Ok(root) => root,
            Err(error) => {
                return Err(error);
            },
        };
        let list = self.known_subtree(root);
        if !self.has_focus_outside(&list) {
            return Err(LayoutError::WouldRemoveLastFocusable(target));
        }
        Ok(())
    }

    /// A view that is there and everything that is part of it, each view before its children.
    pub(crate) fn known_subtree(&self, root: ViewId) -> (list: Vec<ViewId>)
        requires
            self.valid(),
            self.model().views.contains_key(root.0),
        ensures
            subtree(self.model().views, root.0) == Ok::<Seq<u64>, SubtreeFault>(numbers_of(list@)),
    {
        proof {
            lemma_sound_forest(self.model());
            law_forest_has_subtrees(self.model().views, root.0);
        }
        match self.semantic_subtree(root) {
            Ok(list) => list,
            Err(_) => vstd::pervasive::unreached(),
        }
    }

    /// The views to remove with a content, the one with the smallest number first. A view that is
    /// part of another one to remove is not among them.
    pub fn content_removal_roots(&self, content: ContentId) -> (result: Result<
        Vec<ViewId>,
        LayoutError,
    >)
        requires
            self.valid(),
        ensures
            match result {
                Ok(roots) => {
                    &&& forall|view: u64| !#[trigger] without_owner(self.model(), content, view)
                    &&& rising(numbers_of(roots@))
                    &&& forall|view: u64|
                        numbers_of(roots@).contains(view) <==> #[trigger] is_removal_root(
                            self.model(),
                            content,
                            view,
                        )
                },
                Err(error) => exists|view: u64| #[trigger]
                    without_owner(self.model(), content, view) && error
                        == LayoutError::InvalidWorkspace(
                        WorkspaceFault::NoSwitchableOwner(ViewId(view)),
                    ),
            },
    {
        let ghost model = self.model();
        let ids = sorted_keys(&self.views);
        let mut targets: Vec<u64> = Vec::new();
        let mut i: usize = 0;
        while i < ids.len()
            invariant
                i <= ids.len(),
                model == self.model(),
                forall|id: u64| ids@.contains(id) <==> #[trigger] self.views@.contains_key(id),
                rising(targets@),
                forall|target: u64| #[trigger]
                    targets@.contains(target) ==> is_target(model, content, target),
                forall|k: int|
                    0 <= k < i && document_of(model.views[#[trigger] ids@[k]]) == Some(content)
                        ==> switch_target(model.views, ids@[k]) is Some && targets@.contains(
                        switch_target(model.views, ids@[k])->0,
                    ),
            decreases ids.len() - i,
        {
            let id = ids[i];
            assert(ids@.contains(id));
            assert(model.views.contains_key(id));
            let matches = match self.view(ViewId(id)) {
                Some(view) => view.document_content() == Some(content),
                None => false,
            };
            if matches {
                match self.switch_target_from_view(ViewId(id)) {
                    Some(target) => {
                        let ghost before = targets@;
                        insert_rising(&mut targets, target.0);
                        proof {
                            assert(is_target(model, content, target.0));
                            assert forall|k: int|
                                0 <= k < i && document_of(model.views[#[trigger] ids@[k]]) == Some(
                                    content,
                                ) implies switch_target(model.views, ids@[k]) is Some
                                && targets@.contains(switch_target(model.views, ids@[k])->0) by {
                                assert(before.contains(switch_target(model.views, ids@[k])->0));
                            }
                        }
                    },
                    None => {
                        assert(without_owner(model, content, id));
                        return Err(
                            LayoutError::InvalidWorkspace(
                                WorkspaceFault::NoSwitchableOwner(ViewId(id)),
                            ),
                        );
                    },
                }
            }
            i = i + 1;
        }
        let ghost all = targets_of(model, content);
        proof {
            assert forall|view: u64| !#[trigger] without_owner(model, content, view) by {
                if without_owner(model, content, view) {
                    assert(ids@.contains(view));
                    let k = choose|k: int| 0 <= k < ids@.len() && ids@[k] == view;
                    assert(ids@[k] == view);
                }
            }
            assert forall|target: u64| #[trigger] targets@.contains(target) <==> all.contains(
                target,
            ) by {
                if all.contains(target) {
                    let view = choose|view: u64| #[trigger]
                        model.views.contains_key(view) && document_of(model.views[view]) == Some(
                            content,
                        ) && switch_target(model.views, view) == Some(target);
                    assert(ids@.contains(view));
                    let k = choose|k: int| 0 <= k < ids@.len() && ids@[k] == view;
                    assert(ids@[k] == view);
                }
            }
        }
        let mut roots: Vec<ViewId> = Vec::new();
        let mut j: usize = 0;
        assert(numbers_of(roots@) =~= Seq::empty());
        while j < targets.len()
            invariant
                j <= targets.len(),
                model == self.model(),
                all == targets_of(model, content),
                rising(targets@),
                rising(numbers_of(roots@)),
                forall|target: u64| #[trigger] targets@.contains(target) <==> all.contains(target),
                forall|view: u64| #[trigger]
                    numbers_of(roots@).contains(view) ==> is_removal_root(model, content, view)
                        && exists|k: int| 0 <= k < j && targets@[k] == view,
                forall|k: int|
                    0 <= k < j && is_removal_root(model, content, #[trigger] targets@[k])
                        ==> numbers_of(roots@).contains(targets@[k]),
            decreases targets.len() - j,
        {
            let target = targets[j];
            assert(targets@.contains(target));
            if !self.is_covered(&targets, ViewId(target), Ghost(all)) {
                let ghost before = numbers_of(roots@);
                roots.push(ViewId(target));
                proof {
                    let after = numbers_of(roots@);
                    assert(after =~= before.push(target));
                    assert(is_removal_root(model, content, target));
                    assert forall|view: u64| #[trigger]
                        after.contains(view) implies is_removal_root(model, content, view)
                        && exists|k: int| 0 <= k < j + 1 && targets@[k] == view by {
                        let k = choose|k: int| 0 <= k < after.len() && after[k] == view;
                        if k < before.len() {
                            assert(before[k] == view);
                            assert(before.contains(view));
                            let m = choose|m: int| 0 <= m < j && targets@[m] == view;
                            assert(targets@[m] == view);
                        } else {
                            assert(targets@[j as int] == view);
                        }
                    }
                    assert forall|k: int|
                        0 <= k < j + 1 && is_removal_root(
                            model,
                            content,
                            #[trigger] targets@[k],
                        ) implies after.contains(targets@[k]) by {
                        if k < j {
                            assert(before.contains(targets@[k]));
                            let m = choose|m: int|
                                0 <= m < before.len() && before[m] == targets@[k];
                            assert(after[m] == targets@[k]);
                        } else {
                            assert(after[after.len() - 1] == target);
                        }
                    }
                    assert forall|a: int, b: int| 0 <= a < b < after.len() implies after[a]
                        < after[b] by {
                        if b == before.len() {
                            assert(before[a] == after[a]);
                            assert(before.contains(after[a]));
                            let m = choose|m: int| 0 <= m < j && targets@[m] == after[a];
                            assert(targets@[m] < targets@[j as int]);
                        }
                    }
                }
            }
            j = j + 1;
        }
        proof {
            assert forall|view: u64|
                numbers_of(roots@).contains(view) <==> #[trigger] is_removal_root(
                    model,
                    content,
                    view,
                ) by {
                if is_removal_root(model, content, view) {
                    assert(all.contains(view));
                    assert(targets@.contains(view));
                    let k = choose|k: int| 0 <= k < targets@.len() && targets@[k] == view;
                    assert(targets@[k] == view);
                }
            }
        }
        Ok(roots)
    }

    /// Whether some view above `view` is among the targets.
    fn is_covered(&self, targets: &Vec<u64>, view: ViewId, all: Ghost<Set<u64>>) -> (result: bool)
        requires
            forall|target: u64| #[trigger] targets@.contains(target) <==> all@.contains(target),
        ensures
            result == covered(self.model().views, all@, view.0),
    {
        let ghost views = self.model().views;
        assert(views.dom() =~= self.views@.dom());
        let mut steps: usize = self.views.len();
        let mut current: ViewId = view;
        while steps > 0
            invariant
                views == self.model().views,
                forall|target: u64| #[trigger] targets@.contains(target) <==> all@.contains(target),
                covered(views, all@, view.0) == covered_within(
                    views,
                    all@,
                    current.0,
                    steps as nat,
                ),
            decreases steps,
        {
            match self.view(current) {
                None => {
                    return false;
                },
                Some(data) => match data.parent() {
                    None => {
                        return false;
                    },
                    Some(parent) => {
                        if holds_number(targets, parent.0) {
                            return true;
                        }
                        assert(!targets@.contains(parent.0));
                        current = parent;
                    },
                },
            }
            steps = steps - 1;
        }
        false
    }

    /// All views that go with a content.
    fn views_to_remove(&self, content: ContentId, roots: &Vec<ViewId>) -> (removed: Vec<ViewId>)
        requires
            self.valid(),
            forall|view: u64|
                numbers_of(roots@).contains(view) <==> #[trigger] is_removal_root(
                    self.model(),
                    content,
                    view,
                ),
        ensures
            forall|view: u64|
                #[trigger] view_set(removed@).contains(view) <==> goes_with(
                    self.model(),
                    content,
                    view,
                ),
    {
        let ghost model = self.model();
        let mut removed: Vec<ViewId> = Vec::new();
        let mut i: usize = 0;
        while i < roots.len()
            invariant
                self.valid(),
                model == self.model(),
                i <= roots.len(),
                forall|view: u64|
                    numbers_of(roots@).contains(view) <==> #[trigger] is_removal_root(
                        model,
                        content,
                        view,
                    ),
                forall|view: u64| #[trigger]
                    view_set(removed@).contains(view) ==> goes_with(model, content, view),
                forall|k: int, view: u64|
                    0 <= k < i && #[trigger] subtree(
                        model.views,
                        numbers_of(roots@)[k],
                    )->Ok_0.contains(view) ==> view_set(removed@).contains(view),
            decreases roots.len() - i,
        {
            let root = roots[i];
            assert(numbers_of(roots@)[i as int] == root.0);
            assert(numbers_of(roots@).contains(root.0));
            assert(is_removal_root(model, content, root.0));
            proof {
                lemma_target_is_there(model, content, root.0);
            }
            let mut list = self.known_subtree(root);
            let ghost part = numbers_of(list@);
            let ghost before = removed@;
            removed.append(&mut list);
            proof {
                assert(numbers_of(removed@) =~= numbers_of(before) + part);
                assert forall|view: u64| #[trigger] view_set(removed@).contains(view) <==> view_set(
                    before,
                ).contains(view) || part.contains(view) by {
                    let whole = numbers_of(removed@);
                    if whole.contains(view) {
                        let k = choose|k: int| 0 <= k < whole.len() && whole[k] == view;
                        if k < before.len() {
                            assert(numbers_of(before)[k] == view);
                        } else {
                            assert(part[k - before.len()] == view);
                        }
                    }
                    if numbers_of(before).contains(view) {
                        let k = choose|k: int|
                            0 <= k < before.len() && numbers_of(before)[k] == view;
                        assert(whole[k] == view);
                    }
                    if part.contains(view) {
                        let k = choose|k: int| 0 <= k < part.len() && part[k] == view;
                        assert(whole[before.len() + k] == view);
                    }
                }
                assert forall|view: u64| #[trigger]
                    view_set(removed@).contains(view) implies goes_with(model, content, view) by {
                    if part.contains(view) {
                        assert(is_removal_root(model, content, root.0));
                    }
                }
            }
            i = i + 1;
        }
        proof {
            assert forall|view: u64| #[trigger]
                view_set(removed@).contains(view) <==> goes_with(model, content, view) by {
                if goes_with(model, content, view) {
                    let root = choose|root: u64| #[trigger]
                        is_removal_root(model, content, root) && subtree(model.views, root) is Ok
                            && subtree(model.views, root)->Ok_0.contains(view);
                    assert(numbers_of(roots@).contains(root));
                    let k = choose|k: int|
                        0 <= k < numbers_of(roots@).len() && numbers_of(roots@)[k] == root;
                    assert(subtree(model.views, numbers_of(roots@)[k])->Ok_0.contains(view));
                }
            }
        }
        removed
    }

    /// Whether closing the views on a content leaves nothing that can have the focus.
    pub fn closing_content_needs_replacement(&self, content: ContentId) -> (result: Result<
        bool,
        LayoutError,
    >)
        requires
            self.valid(),
        ensures
            match result {
                Ok(needed) => {
                    &&& forall|view: u64| !#[trigger] without_owner(self.model(), content, view)
                    &&& needed == needs_replacement(self.model(), content)
                },
                Err(error) => exists|view: u64| #[trigger]
                    without_owner(self.model(), content, view) && error
                        == LayoutError::InvalidWorkspace(
                        WorkspaceFault::NoSwitchableOwner(ViewId(view)),
                    ),
            },
    {
        let roots = match self.content_removal_roots(content) {
            Ok(roots) => roots,
            Err(error) => {
                return Err(error);
            },
        };
        if roots.len() == 0 {
            assert forall|view: u64| !#[trigger] is_removal_root(self.model(), content, view) by {
                assert(!numbers_of(roots@).contains(view));
            }
            return Ok(false);
        }
        assert(is_removal_root(self.model(), content, roots@[0].0)) by {
            assert(numbers_of(roots@)[0] == roots@[0].0);
            assert(numbers_of(roots@).contains(roots@[0].0));
        }
        let removed = self.views_to_remove(content, &roots);
        assert(view_set(removed@) =~= removed_with(self.model(), content)) by {
            assert forall|view: u64| view_set(removed@).contains(view) == removed_with(
                self.model(),
                content,
            ).contains(view) by {}
        }
        Ok(!self.has_focus_outside(&removed))
    }

    /// The first role, of the view with the smallest number, that keeps a content from going: one
    /// that is bound to it and belongs to a view that stays.
    pub fn blocking_content_reference(&self, content: ContentId) -> (result: Result<
        Option<(ViewId, BindingKey)>,
        LayoutError,
    >)
        requires
            self.valid(),
        ensures
            match result {
                Ok(Some((view, binding))) => {
                    &&& forall|id: u64| !#[trigger] without_owner(self.model(), content, id)
                    &&& blocks(self.model(), content, view.0)
                    &&& first_reference(self.model().views[view.0], content, 0) == Some(
                        binding.name(),
                    )
                    &&& forall|id: u64| #[trigger]
                        blocks(self.model(), content, id) ==> view.0 <= id
                },
                Ok(None) => {
                    &&& forall|id: u64| !#[trigger] without_owner(self.model(), content, id)
                    &&& forall|id: u64| !#[trigger] blocks(self.model(), content, id)
                },
                Err(error) => exists|view: u64| #[trigger]
                    without_owner(self.model(), content, view) && error
                        == LayoutError::InvalidWorkspace(
                        WorkspaceFault::NoSwitchableOwner(ViewId(view)),
                    ),
            },
    {
        let ghost model = self.model();
        let roots = match self.content_removal_roots(content) {
            Ok(roots) => roots,
            Err(error) => {
                return Err(error);
            },
        };
        let removed = self.views_to_remove(content, &roots);
        let ids = sorted_keys(&self.views);
        let mut i: usize = 0;
        while i < ids.len()
            invariant
                i <= ids.len(),
                model == self.model(),
                rising(ids@),
                forall|id: u64| !#[trigger] without_owner(model, content, id),
                forall|id: u64| ids@.contains(id) <==> #[trigger] self.views@.contains_key(id),
                forall|view: u64| #[trigger]
                    view_set(removed@).contains(view) <==> goes_with(model, content, view),
                forall|k: int| 0 <= k < i ==> !blocks(model, content, #[trigger] ids@[k]),
            decreases ids.len() - i,
        {
            let id = ids[i];
            assert(ids@.contains(id));
            proof {
                lemma_view_set(removed@, ViewId(id));
            }
            if !crate::view::instance::holds_id(&removed, ViewId(id)) {
                if let Some(view) = self.view(ViewId(id)) {
                    if let Some(binding) = first_bound(view, content) {
                        proof {
                            assert(blocks(model, content, id));
                            assert forall|other: u64| #[trigger]
                                blocks(model, content, other) implies id <= other by {
                                assert(ids@.contains(other));
                                let k = choose|k: int| 0 <= k < ids@.len() && ids@[k] == other;
                                assert(ids@[k] == other);
                            }
                        }
                        return Ok(Some((ViewId(id), binding)));
                    }
                }
            }
            i = i + 1;
        }
        assert forall|id: u64| !#[trigger] blocks(model, content, id) by {
            if blocks(model, content, id) {
                assert(ids@.contains(id));
                let k = choose|k: int| 0 <= k < ids@.len() && ids@[k] == id;
                assert(ids@[k] == id);
            }
        }
        Ok(None)
    }
}

/// The first role of the view that is bound to the content.
fn first_bound(view: &View, content: ContentId) -> (role: Option<BindingKey>)
    ensures
        match role {
            Some(key) => first_reference(view.model(), content, 0) == Some(key.name()),
            None => first_reference(view.model(), content, 0) is None,
        },
{
    let pairs = view.bindings().iter();
    let ghost model = view.model();
    let mut i: usize = 0;
    while i < pairs.len()
        invariant
            i <= pairs.len(),
            model == view.model(),
            pairs@.len() == model.bindings.len(),
            forall|j: int|
                0 <= j < pairs@.len() ==> (#[trigger] pairs@[j]).0.name() == model.bindings[j].role
                    && pairs@[j].1 == model.bindings[j].content,
            first_reference(model, content, 0) == first_reference(model, content, i as int),
        decreases pairs.len() - i,
    {
        let pair = pairs[i];
        assert(pairs@[i as int] == pair);
        if pair.1 == content {
            return Some(pair.0.clone());
        }
        i = i + 1;
    }
    None
}

/// Closing the views on a content leaves nothing that can have the focus.
pub open spec fn needs_replacement(workspace: WorkspaceModel, content: ContentId) -> bool {
    (exists|root: u64| #[trigger] is_removal_root(workspace, content, root)) && !focus_remains(
        workspace,
        removed_with(workspace, content),
    )
}

/// Why what a space shows cannot be closed.
pub open spec fn close_refusal(workspace: WorkspaceModel, target: SpaceId) -> Option<LayoutError> {
    match subtree_refusal(workspace, target) {
        Some(error) => Some(error),
        None => if focus_remains(
            workspace,
            subtree(workspace.views, subtree_root(workspace, target))->Ok_0.to_set(),
        ) {
            None
        } else {
            Some(LayoutError::WouldRemoveLastFocusable(target))
        },
    }
}

/// A view that goes with a content is there.
pub proof fn lemma_target_is_there(workspace: WorkspaceModel, content: ContentId, target: u64)
    requires
        is_target(workspace, content, target),
    ensures
        workspace.views.contains_key(target),
{
    let view = choose|view: u64| #[trigger]
        workspace.views.contains_key(view) && document_of(workspace.views[view]) == Some(content)
            && switch_target(workspace.views, view) == Some(target);
    law_switch_target_is_switchable(workspace.views, view, workspace.views.dom().len());
}

/// A view is in a list exactly where its number is in the set of the list.
pub proof fn lemma_view_set(views: Seq<ViewId>, view: ViewId)
    ensures
        views.contains(view) == view_set(views).contains(view.0),
{
    let numbers = numbers_of(views);
    if views.contains(view) {
        let k = choose|k: int| 0 <= k < views.len() && views[k] == view;
        assert(numbers[k] == view.0);
    }
    if numbers.contains(view.0) {
        let k = choose|k: int| 0 <= k < numbers.len() && numbers[k] == view.0;
        assert(views[k] == view);
    }
}

/// A list without repetitions of views that are there is no longer than all views.
proof fn lemma_list_within_views(views: Map<u64, ViewModel>, seen: Seq<u64>)
    requires
        views.dom().finite(),
        seen.no_duplicates(),
        forall|i: int| 0 <= i < seen.len() ==> views.contains_key(#[trigger] seen[i]),
    ensures
        seen.len() <= views.dom().len(),
{
    seen.unique_seq_to_set();
    assert(seen.to_set().subset_of(views.dom()));
    vstd::set_lib::lemma_len_subset(seen.to_set(), views.dom());
}

/// A status bar tells its view by its space.
proof fn lemma_bar_by_space(
    workspace: WorkspaceModel,
    content: ContentId,
    a: StatusBarHandle,
    b: StatusBarHandle,
)
    requires
        shows_content(workspace, content, a),
        shows_content(workspace, content, b),
        a.space == b.space,
    ensures
        a == b,
{
}

} // verus!
