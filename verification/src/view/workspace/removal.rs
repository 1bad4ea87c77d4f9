//! Takes views with everything that is part of them out of a workspace.

use crate::protocol::{SpaceId, ViewId};
use crate::text::same_text;
use crate::view::forest::numbers_of;
use crate::view::instance::ViewModel;
use crate::view::layout::LayoutError;
use crate::view::panes::{key_for, BODY_PANE};
use crate::view::scene::SceneBuilder;
use crate::view::soundness::{views_ready, WorkspaceModel};
use crate::view::workspace::queries::{insert_rising, view_set};
use crate::view::workspace::{group_talk, rising, RemovedView, ViewWorkspace};
use vstd::prelude::*;
use vstd::view::View as _;

verus! {

broadcast use {vstd::std_specs::hash::group_hash_axioms, group_talk};

/// Some view of the list uses the space, and it is neither the target nor to be kept.
pub open spec fn to_close(
    workspace: WorkspaceModel,
    list: Seq<u64>,
    target: SpaceId,
    kept: Seq<SpaceId>,
    body: bool,
    space: SpaceId,
) -> bool {
    &&& space != target
    &&& !kept.contains(space)
    &&& exists|i: int|
        0 <= i < list.len() && key_for(workspace.views[#[trigger] list[i]].panes, space) is Some
            && (key_for(workspace.views[list[i]].panes, space) == Some(BODY_PANE@)) == body
}

/// The numbers of spaces.
pub open spec fn space_numbers(spaces: Seq<SpaceId>) -> Seq<u64> {
    spaces.map_values(|space: SpaceId| space.0)
}

/// `spaces` are those to close, attached ones before main areas, and the smaller number first
/// among each.
pub open spec fn closing_order(
    workspace: WorkspaceModel,
    list: Seq<u64>,
    target: SpaceId,
    kept: Seq<SpaceId>,
    spaces: Seq<SpaceId>,
) -> bool {
    exists|attached: Seq<u64>, bodies: Seq<u64>| #[trigger]
        orders(workspace, list, target, kept, spaces, attached, bodies)
}

/// `spaces` are `attached` and then `bodies`, both rising.
pub open spec fn orders(
    workspace: WorkspaceModel,
    list: Seq<u64>,
    target: SpaceId,
    kept: Seq<SpaceId>,
    spaces: Seq<SpaceId>,
    attached: Seq<u64>,
    bodies: Seq<u64>,
) -> bool {
    &&& space_numbers(spaces) == attached + bodies
    &&& rising(attached)
    &&& rising(bodies)
    &&& forall|space: u64|
        #[trigger] attached.contains(space) <==> to_close(
            workspace,
            list,
            target,
            kept,
            false,
            SpaceId(space),
        )
    &&& forall|space: u64|
        #[trigger] bodies.contains(space) <==> to_close(
            workspace,
            list,
            target,
            kept,
            true,
            SpaceId(space),
        )
}

/// The workspace without some views, and without what the index of status bars has of them.
pub open spec fn pruned(workspace: WorkspaceModel, removed: Set<u64>) -> WorkspaceModel {
    WorkspaceModel {
        views: workspace.views.remove_keys(removed),
        status_by_editor: workspace.status_by_editor.remove_keys(removed),
        ..workspace
    }
}

/// The removed views are those of the list, as they were.
pub open spec fn were_removed(
    removed: Seq<RemovedView>,
    list: Seq<u64>,
    views: Map<u64, ViewModel>,
) -> bool {
    &&& removed.len() == list.len()
    &&& forall|i: int|
        0 <= i < removed.len() ==> (#[trigger] removed[i]).id.0 == list[i]
            && views.contains_key(list[i]) && removed[i].view.model() == views[list[i]]
}

/// Whether the space is among the spaces.
fn holds_space(spaces: &Vec<SpaceId>, space: SpaceId) -> (holds: bool)
    ensures
        holds == spaces@.contains(space),
{
    let mut i: usize = 0;
    while i < spaces.len()
        invariant
            i <= spaces.len(),
            forall|j: int| 0 <= j < i ==> spaces@[j] != space,
        decreases spaces.len() - i,
    {
        if spaces[i] == space {
            return true;
        }
        i = i + 1;
    }
    false
}

/// Adds the spaces with these numbers.
fn push_spaces(spaces: &mut Vec<SpaceId>, numbers: &Vec<u64>)
    ensures
        space_numbers(final(spaces)@) == space_numbers(old(spaces)@) + numbers@,
{
    let ghost before = space_numbers(spaces@);
    let mut i: usize = 0;
    assert(before + numbers@.take(0) =~= before);
    while i < numbers.len()
        invariant
            i <= numbers.len(),
            space_numbers(spaces@) == before + numbers@.take(i as int),
        decreases numbers.len() - i,
    {
        let ghost here = space_numbers(spaces@);
        spaces.push(SpaceId(numbers[i]));
        assert(space_numbers(spaces@) =~= here.push(numbers@[i as int]));
        assert(numbers@.take(i + 1) =~= numbers@.take(i as int).push(numbers@[i as int]));
        assert(space_numbers(spaces@) =~= before + numbers@.take(i + 1));
        i = i + 1;
    }
    assert(numbers@.take(i as int) =~= numbers@);
}

impl<B: SceneBuilder> ViewWorkspace<B> {
    /// The spaces to close with the views of a list, attached ones first; the target is left to
    /// the caller.
    pub(crate) fn ordered_subtree_spaces(
        &self,
        list: &Vec<ViewId>,
        target: SpaceId,
        kept: &Vec<SpaceId>,
    ) -> (result: Result<Vec<SpaceId>, LayoutError>)
        ensures
            match result {
                Ok(spaces) => closing_order(
                    self.model(),
                    numbers_of(list@),
                    target,
                    kept@,
                    spaces@,
                ),
                Err(error) => exists|i: int|
                    0 <= i < list@.len() && !self.model().views.contains_key(
                        (#[trigger] list@[i]).0,
                    ) && error == LayoutError::MissingView(list@[i]),
            },
    {
        let ghost model = self.model();
        let ghost numbers = numbers_of(list@);
        let mut attached: Vec<u64> = Vec::new();
        let mut bodies: Vec<u64> = Vec::new();
        let mut i: usize = 0;
        while i < list.len()
            invariant
                i <= list.len(),
                model == self.model(),
                numbers == numbers_of(list@),
                rising(attached@),
                rising(bodies@),
                forall|space: u64|
                    #[trigger] attached@.contains(space) <==> to_close(
                        model,
                        numbers.take(i as int),
                        target,
                        kept@,
                        false,
                        SpaceId(space),
                    ),
                forall|space: u64|
                    #[trigger] bodies@.contains(space) <==> to_close(
                        model,
                        numbers.take(i as int),
                        target,
                        kept@,
                        true,
                        SpaceId(space),
                    ),
            decreases list.len() - i,
        {
            let data = match self.view(list[i]) {
                Some(data) => data,
                None => {
                    return Err(LayoutError::MissingView(list[i]));
                },
            };
            assert(numbers[i as int] == list@[i as int].0);
            let ghost panes = data.model().panes;
            let spaces = data.panes().spaces();
            let ghost attached_before = attached@;
            let ghost bodies_before = bodies@;
            let mut j: usize = 0;
            while j < spaces.len()
                invariant
                    j <= spaces.len(),
                    panes == data.model().panes,
                    forall|space: SpaceId|
                        spaces@.contains(space) <==> #[trigger] panes.contains_key(space),
                    rising(attached@),
                    rising(bodies@),
                    forall|space: u64|
                        #[trigger] attached@.contains(space) <==> attached_before.contains(space)
                            || (SpaceId(space) != target && !kept@.contains(SpaceId(space))
                            && spaces@.take(j as int).contains(SpaceId(space))
                            && panes[SpaceId(space)] != BODY_PANE@),
                    forall|space: u64|
                        #[trigger] bodies@.contains(space) <==> bodies_before.contains(space) || (
                        SpaceId(space) != target && !kept@.contains(SpaceId(space))
                            && spaces@.take(j as int).contains(SpaceId(space))
                            && panes[SpaceId(space)] == BODY_PANE@),
                decreases spaces.len() - j,
            {
                let space = spaces[j];
                assert(spaces@.contains(space));
                let ghost seen = spaces@.take(j as int);
                let ghost now = spaces@.take(j + 1);
                assert forall|other: SpaceId| #[trigger] now.contains(other) <==> seen.contains(
                    other,
                ) || other == space by {
                    if now.contains(other) {
                        let k = choose|k: int| 0 <= k < now.len() && now[k] == other;
                        if k < j {
                            assert(seen[k] == other);
                        }
                    }
                    if seen.contains(other) {
                        let k = choose|k: int| 0 <= k < seen.len() && seen[k] == other;
                        assert(now[k] == other);
                    }
                    if other == space {
                        assert(now[j as int] == other);
                    }
                }
                if space != target && !holds_space(kept, space) {
                    let is_body = match data.panes().key_for_space(space) {
                        Some(key) => same_text(key, BODY_PANE),
                        None => false,
                    };
                    if is_body {
                        insert_rising(&mut bodies, space.0);
                    } else {
                        insert_rising(&mut attached, space.0);
                    }
                }
                j = j + 1;
            }
            proof {
                assert(spaces@.take(j as int) =~= spaces@);
                lemma_to_close_step(model, numbers, i as int, target, kept@, panes);
            }
            i = i + 1;
        }
        assert(numbers.take(i as int) =~= numbers);
        let mut spaces: Vec<SpaceId> = Vec::new();
        assert(space_numbers(spaces@) =~= Seq::empty());
        push_spaces(&mut spaces, &attached);
        push_spaces(&mut spaces, &bodies);
        assert(orders(model, numbers, target, kept@, spaces@, attached@, bodies@)) by {
            assert(space_numbers(spaces@) =~= attached@ + bodies@);
        }
        Ok(spaces)
    }

    /// Takes the views of a list out, together with what the index of status bars has of them.
    pub(crate) fn remove_views(&mut self, list: &Vec<ViewId>) -> (result: Result<
        Vec<RemovedView>,
        LayoutError,
    >)
        requires
            views_ready(old(self).model()),
        ensures
            final(self).talk() == old(self).talk(),
            old(self).went_on(*final(self)),
            views_ready(final(self).model()),
            result matches Ok(removed) ==> {
                &&& final(self).model() == pruned(old(self).model(), view_set(list@))
                &&& were_removed(removed@, numbers_of(list@), old(self).model().views)
            },
            numbers_of(list@).no_duplicates() && (forall|i: int|
                0 <= i < list@.len() ==> old(self).model().views.contains_key(
                    (#[trigger] list@[i]).0,
                )) ==> result is Ok,
            result matches Err(error) ==> error is MissingView,
    {
        let ghost before = self.model();
        let ghost numbers = numbers_of(list@);
        let mut removed: Vec<RemovedView> = Vec::new();
        let mut i: usize = 0;
        assert(before.views.remove_keys(numbers.take(0).to_set()) =~= before.views);
        assert(before.status_by_editor.remove_keys(numbers.take(0).to_set())
            =~= before.status_by_editor);
        while i < list.len()
            invariant
                i <= list.len(),
                numbers == numbers_of(list@),
                before == old(self).model(),
                views_ready(before),
                self.talk() == old(self).talk(),
                self.builder() == old(self).builder(),
                views_ready(self.model()),
                self.model() == pruned(before, numbers.take(i as int).to_set()),
                were_removed(removed@, numbers.take(i as int), before.views),
            decreases list.len() - i,
        {
            let id = list[i];
            assert(numbers[i as int] == id.0);
            let ghost here = self.model();
            let ghost taken = numbers.take(i as int);
            let ghost next = numbers.take(i + 1);
            assert(next =~= taken.push(id.0));
            assert(next.to_set() =~= taken.to_set().insert(id.0)) by {
                assert forall|other: u64| next.to_set().contains(other) == taken.to_set().insert(
                    id.0,
                ).contains(other) by {
                    if next.contains(other) {
                        let k = choose|k: int| 0 <= k < next.len() && next[k] == other;
                        if k < taken.len() {
                            assert(taken[k] == other);
                        }
                    }
                    if taken.contains(other) {
                        let k = choose|k: int| 0 <= k < taken.len() && taken[k] == other;
                        assert(next[k] == other);
                    }
                    if other == id.0 {
                        assert(next[i as int] == other);
                    }
                }
            }
            self.status_by_editor.remove(&id.0);
            match self.views.remove(&id.0) {
                Some(view) => {
                    removed.push(RemovedView { id, view });
                    proof {
                        assert(self.model().views =~= here.views.remove(id.0));
                        assert(here.views == before.views.remove_keys(taken.to_set()));
                        assert(self.model().views =~= before.views.remove_keys(next.to_set()));
                        assert(self.views@.dom().finite());
                        assert(self.model().views.dom() =~= self.views@.dom());
                        assert(self.model().status_by_editor
                            =~= before.status_by_editor.remove_keys(next.to_set()));
                        assert(self.model() =~= pruned(before, next.to_set()));
                    }
                },
                None => {
                    assert(self.model().views =~= here.views);
                    proof {
                        if numbers.no_duplicates() && before.views.contains_key(list@[i as int].0) {
                            assert(taken.to_set().contains(id.0));
                            let k = choose|k: int| 0 <= k < taken.len() && taken[k] == id.0;
                            assert(numbers[k] == numbers[i as int]);
                        }
                    }
                    return Err(LayoutError::MissingView(id));
                },
            }
            i = i + 1;
        }
        assert(numbers.take(i as int) =~= numbers);
        Ok(removed)
    }
}

/// What one more view adds to the spaces to close.
proof fn lemma_to_close_step(
    workspace: WorkspaceModel,
    list: Seq<u64>,
    i: int,
    target: SpaceId,
    kept: Seq<SpaceId>,
    panes: Map<SpaceId, Seq<char>>,
)
    requires
        0 <= i < list.len(),
        workspace.views[list[i]].panes == panes,
    ensures
        forall|body: bool, space: SpaceId|
            #[trigger] to_close(workspace, list.take(i + 1), target, kept, body, space)
                <==> to_close(workspace, list.take(i), target, kept, body, space) || (space
                != target && !kept.contains(space) && panes.contains_key(space) && (panes[space]
                == BODY_PANE@) == body),
{
    let before = list.take(i);
    let after = list.take(i + 1);
    assert forall|body: bool, space: SpaceId|
        #[trigger] to_close(workspace, after, target, kept, body, space) <==> to_close(
            workspace,
            before,
            target,
            kept,
            body,
            space,
        ) || (space != target && !kept.contains(space) && panes.contains_key(space) && (panes[space]
            == BODY_PANE@) == body) by {
        if to_close(workspace, after, target, kept, body, space) {
            let k = choose|k: int|
                0 <= k < after.len() && key_for(workspace.views[#[trigger] after[k]].panes, space)
                    is Some && (key_for(workspace.views[after[k]].panes, space) == Some(BODY_PANE@))
                    == body;
            if k < i {
                assert(before[k] == after[k]);
            }
        }
        if to_close(workspace, before, target, kept, body, space) {
            let k = choose|k: int|
                0 <= k < before.len() && key_for(workspace.views[#[trigger] before[k]].panes, space)
                    is Some && (key_for(workspace.views[before[k]].panes, space) == Some(
                    BODY_PANE@,
                )) == body;
            assert(after[k] == before[k]);
        }
        if panes.contains_key(space) {
            assert(after[i] == list[i]);
        }
    }
}

} // verus!
