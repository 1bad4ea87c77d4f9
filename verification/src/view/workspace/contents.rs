//! Closes every view on a content.

use crate::protocol::{ContentId, SpaceId, ViewId};
use crate::view::forest::{numbers_of, subtree};
use crate::view::instance::{document_of, holds_id, View, ViewModel};
use crate::view::layout::{LayoutError, WorkspaceFault};
use crate::view::scene::{view_at, Exchange, SceneBuilder, SceneModel};
use crate::view::soundness::{scene_of, views_ready, workspace_sound, WorkspaceModel};
use crate::view::workspace::closing::{
    cannot_close, cannot_replace, root_refusal, was_closed, was_replaced, whole_of,
};
use crate::view::workspace::content_laws::law_content_close_is_whole;
use crate::view::workspace::family::law_free_changes_keep_soundness;
use crate::view::workspace::outcomes::{
    law_close_removes_its_part, law_replacement_removes_its_part, same_document,
};
use crate::view::workspace::queries::{
    goes_with, is_removal_root, lemma_view_set, needs_replacement, replacement_space, without_owner,
};
use crate::view::workspace::removal::were_removed;
use crate::view::workspace::steps::{revised};
use crate::view::workspace::{
    group_talk, lemma_may_say_later, lemma_may_say_nothing, lemma_nothing_said_yet, lemma_said,
    rising, RemovedView, ViewWorkspace, WorkspaceMutation,
};
use vstd::prelude::*;
use vstd::view::View as _;

verus! {

broadcast use {vstd::std_specs::hash::group_hash_axioms, group_talk};

/// The workspace with another revision of its scene.
pub open spec fn rewound(workspace: WorkspaceModel, revision: u64) -> WorkspaceModel {
    WorkspaceModel { scene_revision: revision, ..workspace }
}

/// The views that go with a content and are part of none that does, the smallest number first.
pub open spec fn removal_roots(
    workspace: WorkspaceModel,
    content: ContentId,
    roots: Seq<u64>,
) -> bool {
    &&& rising(roots)
    &&& forall|view: u64|
        roots.contains(view) <==> #[trigger] is_removal_root(workspace, content, view)
}

/// A view is, or has as a part of it, the view that has the focus.
pub open spec fn has_focus(workspace: WorkspaceModel, root: u64) -> bool {
    view_at(workspace.nodes, workspace.focused) matches Some(view) && (subtree(
        workspace.views,
        root,
    ) matches Ok(list) && list.contains(view.0))
}

/// The first of the views, from index `i` on, that has the focus.
pub open spec fn first_with_focus(
    workspace: WorkspaceModel,
    roots: Seq<u64>,
    i: int,
) -> Option<u64>
    decreases roots.len() - i,
{
    if i >= roots.len() {
        None
    } else if has_focus(workspace, roots[i]) {
        Some(roots[i])
    } else {
        first_with_focus(workspace, roots, i + 1)
    }
}

/// The view in whose place another one comes: the one that has the focus, else the first.
pub open spec fn replaced_root(workspace: WorkspaceModel, roots: Seq<u64>) -> u64 {
    match first_with_focus(workspace, roots, 0) {
        Some(root) => root,
        None => roots[0],
    }
}

/// The views without one of them.
pub open spec fn roots_but(roots: Seq<u64>, skipped: Option<u64>) -> Seq<u64>
    decreases roots.len(),
{
    if roots.len() == 0 {
        Seq::empty()
    } else if Some(roots.last()) == skipped {
        roots_but(roots.drop_last(), skipped)
    } else {
        roots_but(roots.drop_last(), skipped).push(roots.last())
    }
}

/// Some views of a workspace, each with its number.
pub open spec fn listing(views: Map<u64, ViewModel>, list: Seq<u64>) -> Seq<(u64, ViewModel)> {
    list.map_values(|id: u64| (id, views[id]))
}

/// Removed views, each with its number.
pub open spec fn models_of(removed: Seq<RemovedView>) -> Seq<(u64, ViewModel)> {
    removed.map_values(|view: RemovedView| (view.id.0, view.view.model()))
}

/// One of several views is closed: what came before it, and what a builder gave for it.
pub struct CloseStep {
    pub middle: WorkspaceModel,
    pub said: Seq<Exchange>,
    pub removed: Seq<(u64, ViewModel)>,
    pub closed: WorkspaceModel,
    pub last_said: Seq<Exchange>,
    pub target: SpaceId,
    pub neighbor: Option<SpaceId>,
    pub spaces: Seq<SpaceId>,
    pub scene: SceneModel,
}

/// The step closes a view.
pub open spec fn step_closes(
    step: CloseStep,
    after: WorkspaceModel,
    said: Seq<Exchange>,
    removed: Seq<(u64, ViewModel)>,
    root: u64,
) -> bool {
    &&& views_ready(step.middle)
    &&& workspace_sound(step.middle)
    &&& step.middle.views.contains_key(root)
    &&& replacement_space(step.middle, root) == Some(step.target)
    &&& root_refusal(step.middle, root, step.target) is None
    &&& was_closed(
        step.middle,
        step.closed,
        step.last_said,
        root,
        step.target,
        step.neighbor,
        step.spaces,
        step.scene,
    )
    &&& after == rewound(step.closed, step.middle.scene_revision)
    &&& said == step.said + step.last_said
    &&& removed == step.removed + listing(step.middle.views, whole_of(step.middle, root))
}

/// Views have been closed, one after the other, in these steps.
pub open spec fn closed_in_turn(
    before: WorkspaceModel,
    after: WorkspaceModel,
    said: Seq<Exchange>,
    removed: Seq<(u64, ViewModel)>,
    roots: Seq<u64>,
    steps: Seq<CloseStep>,
) -> bool
    decreases roots.len(),
{
    &&& steps.len() == roots.len()
    &&& if roots.len() == 0 {
        after == before && said.len() == 0 && removed.len() == 0
    } else {
        let step = steps.last();
        &&& closed_in_turn(
            before,
            step.middle,
            step.said,
            step.removed,
            roots.drop_last(),
            steps.drop_last(),
        )
        &&& step_closes(step, after, said, removed, roots.last())
    }
}

/// Another view comes in the place of the first view that is closed, and what a builder gave for
/// it.
pub struct ReplaceStep {
    pub roots: Seq<u64>,
    pub start: WorkspaceModel,
    pub replaced: WorkspaceModel,
    pub said: Seq<Exchange>,
    pub removed: Seq<(u64, ViewModel)>,
    pub target: SpaceId,
    pub spaces: Seq<SpaceId>,
    pub scene: SceneModel,
    pub end: WorkspaceModel,
    pub closing: Seq<Exchange>,
    pub closed: Seq<(u64, ViewModel)>,
    pub steps: Seq<CloseStep>,
}

/// How closing starts: with another view in the place of one of those that go, where there is one.
pub open spec fn step_starts(
    before: WorkspaceModel,
    replacement: Option<ViewModel>,
    step: ReplaceStep,
) -> bool {
    match replacement {
        Some(view) => {
            let root = replaced_root(before, step.roots);
            &&& before.views.contains_key(root)
            &&& replacement_space(before, root) == Some(step.target)
            &&& was_replaced(
                before,
                step.replaced,
                step.said,
                root,
                step.target,
                view,
                true,
                step.spaces,
                step.scene,
            )
            &&& views_ready(step.replaced)
            &&& workspace_sound(step.replaced)
            &&& step.start == rewound(step.replaced, before.scene_revision)
            &&& step.removed == listing(before.views, whole_of(before, root))
        },
        None => {
            &&& step.start == before
            &&& step.said.len() == 0
            &&& step.removed.len() == 0
        },
    }
}

/// Views have been closed, another one perhaps in the place of one of them.
#[verifier::opaque]
pub open spec fn roots_closed(
    before: WorkspaceModel,
    after: WorkspaceModel,
    said: Seq<Exchange>,
    removed: Seq<(u64, ViewModel)>,
    replacement: Option<ViewModel>,
    step: ReplaceStep,
) -> bool {
    let skipped = match replacement {
        Some(_) => Some(replaced_root(before, step.roots)),
        None => None,
    };
    &&& step_starts(before, replacement, step)
    &&& closed_in_turn(
        step.start,
        step.end,
        step.closing,
        step.closed,
        roots_but(step.roots, skipped),
        step.steps,
    )
    &&& after == revised(step.end)
    &&& said == step.said + step.closing
    &&& removed == step.removed + step.closed
}

/// The views on a content have been closed.
pub open spec fn content_closed(
    before: WorkspaceModel,
    after: WorkspaceModel,
    said: Seq<Exchange>,
    removed: Seq<(u64, ViewModel)>,
    content: ContentId,
    replacement: Option<ViewModel>,
    step: ReplaceStep,
) -> bool {
    removal_roots(before, content, step.roots) && roots_closed(
        before,
        after,
        said,
        removed,
        replacement,
        step,
    )
}

/// Another view has come in the place of the view that has the focus.
pub open spec fn root_replaced(
    before: WorkspaceModel,
    after: WorkspaceModel,
    view: ViewModel,
    step: ReplaceStep,
    roots: Seq<u64>,
    removed: Seq<(u64, ViewModel)>,
    said: Seq<Exchange>,
) -> bool {
    &&& step.roots == roots
    &&& step.start == after
    &&& step_starts(before, Some(view), step)
    &&& step.removed == removed
    &&& step.said == said
}

/// The number of a view that may not be there.
pub open spec fn number_of(view: Option<ViewId>) -> Option<u64> {
    match view {
        Some(view) => Some(view.0),
        None => None,
    }
}

/// The error says why a view cannot be closed, with what was said to the builder for it.
pub open spec fn turn_refuses(
    workspace: WorkspaceModel,
    root: u64,
    said: Seq<Exchange>,
    error: LayoutError,
) -> bool {
    match replacement_space(workspace, root) {
        Some(target) => if workspace.views.contains_key(root) {
            match root_refusal(workspace, root, target) {
                Some(refusal) => said.len() == 0 && error == refusal,
                None => cannot_close(workspace, root, target, said, error),
            }
        } else {
            said.len() == 0 && error == LayoutError::MissingView(ViewId(root))
        },
        None => said.len() == 0 && error == LayoutError::MissingView(ViewId(root)),
    }
}

/// The error says why another view cannot come in the place of one of those that go, with what
/// was said to the builder for it.
pub open spec fn start_refuses(
    workspace: WorkspaceModel,
    roots: Seq<u64>,
    view: ViewModel,
    said: Seq<Exchange>,
    error: LayoutError,
) -> bool {
    let root = replaced_root(workspace, roots);
    match replacement_space(workspace, root) {
        Some(target) => if workspace.views.contains_key(root) {
            cannot_replace(workspace, root, target, view, true, said, error)
        } else {
            said.len() == 0 && error == LayoutError::MissingView(ViewId(root))
        },
        None => said.len() == 0 && error == LayoutError::MissingView(ViewId(root)),
    }
}

/// Some of several views have been closed, and what was said for the next one.
pub struct StopStep {
    pub middle: WorkspaceModel,
    pub said: Seq<Exchange>,
    pub removed: Seq<(u64, ViewModel)>,
    pub steps: Seq<CloseStep>,
    pub count: int,
    pub last: Seq<Exchange>,
}

/// Views have been closed, one after the other, up to one that cannot be.
pub open spec fn stopped_in_turn(
    before: WorkspaceModel,
    roots: Seq<u64>,
    stop: StopStep,
    error: LayoutError,
) -> bool {
    &&& 0 <= stop.count < roots.len()
    &&& closed_in_turn(
        before,
        stop.middle,
        stop.said,
        stop.removed,
        roots.take(stop.count),
        stop.steps,
    )
    &&& turn_refuses(stop.middle, roots[stop.count], stop.last, error)
}

/// The error says why views cannot be closed, with what was said to the builder for it.
#[verifier::opaque]
pub open spec fn roots_stop(
    before: WorkspaceModel,
    replacement: Option<ViewModel>,
    step: ReplaceStep,
    stop: StopStep,
    said: Seq<Exchange>,
    error: LayoutError,
) -> bool {
    let skipped = match replacement {
        Some(_) => Some(replaced_root(before, step.roots)),
        None => None,
    };
    ||| replacement matches Some(view) && start_refuses(before, step.roots, view, said, error)
    ||| {
        &&& step_starts(before, replacement, step)
        &&& stopped_in_turn(step.start, roots_but(step.roots, skipped), stop, error)
        &&& said == step.said + (stop.said + stop.last)
    }
}

/// The error says why the views on a content cannot be closed, with what was said to the builder
/// for it.
pub open spec fn content_stops(
    before: WorkspaceModel,
    content: ContentId,
    replacement: Option<ViewModel>,
    step: ReplaceStep,
    stop: StopStep,
    said: Seq<Exchange>,
    error: LayoutError,
) -> bool {
    removal_roots(before, content, step.roots) && roots_stop(
        before,
        replacement,
        step,
        stop,
        said,
        error,
    )
}

/// Some view goes with the content.
pub open spec fn has_removal_root(workspace: WorkspaceModel, content: ContentId) -> bool {
    exists|root: u64| #[trigger] is_removal_root(workspace, content, root)
}

/// Nothing has been closed.
spec fn nothing_closed(workspace: WorkspaceModel) -> StopStep {
    StopStep {
        middle: workspace,
        said: Seq::empty(),
        removed: Seq::empty(),
        steps: Seq::empty(),
        count: 0,
        last: Seq::empty(),
    }
}

/// The model of a view that may not be there.
pub open spec fn optional_model(view: Option<View>) -> Option<ViewModel> {
    match view {
        Some(view) => Some(view.model()),
        None => None,
    }
}

impl<B: SceneBuilder> ViewWorkspace<B> {
    /// The first of the views that has the focus.
    fn root_with_focus(&self, roots: &Vec<ViewId>) -> (found: Option<ViewId>)
        ensures
            match found {
                Some(root) => first_with_focus(self.model(), numbers_of(roots@), 0) == Some(root.0),
                None => first_with_focus(self.model(), numbers_of(roots@), 0) is None,
            },
    {
        let ghost numbers = numbers_of(roots@);
        let focused = match self.view_for_space(self.focused) {
            Some(focused) => focused,
            None => {
                proof {
                    lemma_no_focus(self.model(), numbers, 0);
                }
                return None;
            },
        };
        let mut i: usize = 0;
        while i < roots.len()
            invariant
                i <= roots.len(),
                numbers == numbers_of(roots@),
                view_at(self.model().nodes, self.model().focused) == Some(focused),
                first_with_focus(self.model(), numbers, 0) == first_with_focus(
                    self.model(),
                    numbers,
                    i as int,
                ),
            decreases roots.len() - i,
        {
            let holds = match self.semantic_subtree(roots[i]) {
                Ok(list) => {
                    proof {
                        lemma_view_set(list@, focused);
                    }
                    holds_id(&list, focused)
                },
                Err(_) => false,
            };
            assert(numbers[i as int] == roots@[i as int].0);
            assert(holds == has_focus(self.model(), numbers[i as int]));
            if holds {
                return Some(roots[i]);
            }
            i = i + 1;
        }
        None
    }

    /// Shows another view in the place of the one among the views that has the focus, else of the
    /// first.
    fn replace_root(&mut self, roots: &Vec<ViewId>, view: View) -> (result: Result<
        (ViewId, WorkspaceMutation<ViewId>),
        LayoutError,
    >)
        requires
            old(self).valid(),
            old(self).model().scene_revision < u64::MAX,
            old(self).model().next_view_id < u64::MAX,
            roots@.len() > 0,
        ensures
            match result {
                Ok((root, mutation)) => {
                    &&& root.0 == replaced_root(old(self).model(), numbers_of(roots@))
                    &&& mutation.output.0 == old(self).model().next_view_id
                    &&& final(self).valid()
                    &&& final(self).model().scene_revision == old(self).model().scene_revision
                    &&& exists|step: ReplaceStep| #[trigger]
                        root_replaced(
                            old(self).model(),
                            final(self).model(),
                            view.model(),
                            step,
                            numbers_of(roots@),
                            models_of(mutation.removed@),
                            old(self).said(*final(self)),
                        )
                    &&& old(self).went_on(*final(self))
                },
                Err(error) => exists|said: Seq<Exchange>| #[trigger]
                    old(self).may_say(said) && start_refuses(
                        old(self).model(),
                        numbers_of(roots@),
                        view.model(),
                        said,
                        error,
                    ),
            },
    {
        let ghost before = self.model();
        let ghost start_here = *self;
        let ghost numbers = numbers_of(roots@);
        let ghost model = view.model();
        let base_revision = self.scene_revision;
        let root = match self.root_with_focus(roots) {
            Some(root) => root,
            None => roots[0],
        };
        assert(numbers[0] == roots@[0].0);
        proof {
            lemma_may_say_nothing(start_here);
        }
        let target = match self.replacement_space_for_view(root) {
            Some(target) => target,
            None => {
                return Err(LayoutError::MissingView(root));
            },
        };
        if self.view(root).is_none() {
            return Err(LayoutError::MissingView(root));
        }
        let mutation = match self.replace_whole(root, target, view, true) {
            Ok(mutation) => mutation,
            Err(error) => {
                return Err(error);
            },
        };
        let ghost replaced = self.model();
        let ghost first_said = start_here.said(*self);
        let ghost (spaces, scene) = choose|spaces: Seq<SpaceId>, scene: SceneModel| #[trigger]
            was_replaced(
                before,
                replaced,
                first_said,
                root.0,
                target,
                model,
                true,
                spaces,
                scene,
            );
        let ghost replaced_here = *self;
        self.scene_revision = base_revision;
        proof {
            assert(replaced_here.went_on(*self));
            lemma_were_removed(mutation.removed@, whole_of(before, root.0), before.views);
            let start = rewound(replaced, before.scene_revision);
            assert(self.model() =~= start);
            law_free_changes_keep_soundness(replaced, self.model());
            let step = ReplaceStep {
                roots: numbers,
                start,
                replaced,
                said: first_said,
                removed: listing(before.views, whole_of(before, root.0)),
                target,
                spaces,
                scene,
                end: start,
                closing: Seq::empty(),
                closed: Seq::empty(),
                steps: Seq::empty(),
            };
            assert(start_here.said(*self) =~= first_said);
            assert(root_replaced(
                before,
                self.model(),
                model,
                step,
                numbers,
                models_of(mutation.removed@),
                first_said,
            ));
        }
        let ghost gone = models_of(mutation.removed@);
        let result: Result<(ViewId, WorkspaceMutation<ViewId>), LayoutError> = Ok((root, mutation));
        assert(models_of(result->Ok_0.1.removed@) == gone);
        result
    }

    /// Closes views, one after the other, but for one of them.
    fn close_roots(
        &mut self,
        roots: &Vec<ViewId>,
        skipped: Option<ViewId>,
        removed: &mut Vec<RemovedView>,
    ) -> (result: Result<(), LayoutError>)
        requires
            old(self).valid(),
            old(self).model().scene_revision < u64::MAX,
        ensures
            match result {
                Ok(_) => {
                    &&& final(self).valid()
                    &&& final(self).model().scene_revision == old(self).model().scene_revision
                    &&& exists|
                        said: Seq<Exchange>,
                        closed: Seq<(u64, ViewModel)>,
                        steps: Seq<CloseStep>,
                    |
                        #![trigger closed_in_turn(
                            old(self).model(),
                            final(self).model(),
                            said,
                            closed,
                            roots_but(numbers_of(roots@), number_of(skipped)),
                            steps,
                        )]
                        closed_in_turn(
                            old(self).model(),
                            final(self).model(),
                            said,
                            closed,
                            roots_but(numbers_of(roots@), number_of(skipped)),
                            steps,
                        ) && old(self).said(*final(self)) == said && models_of(final(removed)@)
                            == models_of(old(removed)@) + closed
                    &&& old(self).went_on(*final(self))
                },
                Err(error) => exists|stop: StopStep|
                    old(self).may_say(stop.said + stop.last) && #[trigger] stopped_in_turn(
                        old(self).model(),
                        roots_but(numbers_of(roots@), number_of(skipped)),
                        stop,
                        error,
                    ),
            },
    {
        let ghost before = self.model();
        let ghost start = *self;
        let ghost start_removed = models_of(removed@);
        let ghost numbers = numbers_of(roots@);
        let ghost skip_number = number_of(skipped);
        let base_revision = self.scene_revision;
        let ghost mut closing: Seq<Exchange> = Seq::empty();
        let ghost mut closed: Seq<(u64, ViewModel)> = Seq::empty();
        let ghost mut steps: Seq<CloseStep> = Seq::empty();
        let mut i: usize = 0;
        assert(roots_but(numbers.take(0), skip_number) =~= Seq::empty());
        proof {
            lemma_nothing_said_yet(start, *self);
        }
        assert(start_removed =~= start_removed + closed);
        while i < roots.len()
            invariant
                i <= roots.len(),
                numbers == numbers_of(roots@),
                before == old(self).model(),
                before.scene_revision < u64::MAX,
                base_revision.0 == before.scene_revision,
                self.valid(),
                self.model().scene_revision == before.scene_revision,
                skip_number == number_of(skipped),
                closed_in_turn(
                    before,
                    self.model(),
                    closing,
                    closed,
                    roots_but(numbers.take(i as int), skip_number),
                    steps,
                ),
                start == *old(self),
                start.went_on(*self),
                start.said(*self) == closing,
                models_of(removed@) == start_removed + closed,
            decreases roots.len() - i,
        {
            let root = roots[i];
            assert(numbers[i as int] == root.0);
            let ghost taken = numbers.take(i as int);
            let ghost next = numbers.take(i + 1);
            assert(next.drop_last() =~= taken);
            assert(next.last() == root.0);
            let skip = match skipped {
                Some(skipped_root) => skipped_root == root,
                None => false,
            };
            if !skip {
                let ghost stop = StopStep {
                    middle: self.model(),
                    said: closing,
                    removed: closed,
                    steps,
                    count: roots_but(taken, skip_number).len() as int,
                    last: Seq::empty(),
                };
                proof {
                    lemma_roots_but_prefix(numbers, skip_number, i + 1);
                    let list = roots_but(numbers, skip_number);
                    let now = roots_but(next, skip_number);
                    assert(now == roots_but(taken, skip_number).push(root.0));
                    assert(list.take(stop.count) =~= roots_but(taken, skip_number)) by {
                        assert(list.take(stop.count) =~= now.take(stop.count));
                    }
                    assert(list[stop.count] == now[stop.count]);
                    assert(stop.said + stop.last =~= closing);
                }
                let target = match self.replacement_space_for_view(root) {
                    Some(target) => target,
                    None => {
                        assert(stopped_in_turn(
                            before,
                            roots_but(numbers, skip_number),
                            stop,
                            LayoutError::MissingView(root),
                        ));
                        return Err(LayoutError::MissingView(root));
                    },
                };
                if self.view(root).is_none() {
                    assert(stopped_in_turn(
                        before,
                        roots_but(numbers, skip_number),
                        stop,
                        LayoutError::MissingView(root),
                    ));
                    return Err(LayoutError::MissingView(root));
                }
                let ghost middle = self.model();
                let ghost here = *self;
                let ghost removed_before = models_of(removed@);
                let mut mutation = match self.close_whole(root, target) {
                    Ok(mutation) => mutation,
                    Err(error) => {
                        proof {
                            if root_refusal(middle, root.0, target) is None {
                                let last = choose|last: Seq<Exchange>| #[trigger]
                                    here.may_say(last) && cannot_close(
                                        middle,
                                        root.0,
                                        target,
                                        last,
                                        error,
                                    );
                                lemma_may_say_later(start, here, last);
                                let end = StopStep { last, ..stop };
                                assert(stopped_in_turn(
                                    before,
                                    roots_but(numbers, skip_number),
                                    end,
                                    error,
                                ));
                            } else {
                                assert(stopped_in_turn(
                                    before,
                                    roots_but(numbers, skip_number),
                                    stop,
                                    error,
                                ));
                            }
                        }
                        return Err(error);
                    },
                };
                let ghost neighbor = mutation.output.surviving_neighbor;
                let ghost after_close = self.model();
                let ghost last_said = here.said(*self);
                let ghost (spaces, scene) = choose|spaces: Seq<SpaceId>, scene: SceneModel|
                    #[trigger]
                    was_closed(
                        middle,
                        after_close,
                        last_said,
                        root.0,
                        target,
                        neighbor,
                        spaces,
                        scene,
                    );
                proof {
                    lemma_said(start, here, *self);
                    lemma_were_removed(mutation.removed@, whole_of(middle, root.0), middle.views);
                }
                let ghost closed_here = *self;
                let ghost gone = models_of(mutation.removed@);
                removed.append(&mut mutation.removed);
                self.scene_revision = base_revision;
                proof {
                    assert(self.model() =~= rewound(after_close, middle.scene_revision));
                    assert(closed_here.went_on(*self));
                    law_free_changes_keep_soundness(after_close, self.model());
                    let close_step = CloseStep {
                        middle,
                        said: closing,
                        removed: closed,
                        closed: after_close,
                        last_said,
                        target,
                        neighbor,
                        spaces,
                        scene,
                    };
                    assert(models_of(removed@) =~= removed_before + gone);
                    assert(start.said(*self) =~= start.said(closed_here));
                    let now_said = closing + last_said;
                    let now_closed = closed + gone;
                    assert(step_closes(close_step, self.model(), now_said, now_closed, root.0));
                    lemma_next_turn(
                        before,
                        self.model(),
                        now_said,
                        now_closed,
                        roots_but(taken, skip_number),
                        steps,
                        root.0,
                        close_step,
                    );
                    assert(roots_but(next, skip_number) == roots_but(taken, skip_number).push(
                        root.0,
                    ));
                    assert(start.said(*self) =~= now_said);
                    assert(models_of(removed@) =~= start_removed + now_closed);
                    closing = now_said;
                    closed = now_closed;
                    steps = steps.push(close_step);
                }
            }
            i = i + 1;
        }
        assert(numbers.take(i as int) =~= numbers);
        Ok(())
    }

    /// Closes views, one after the other, another one perhaps in the place of one of them.
    fn close_from(&mut self, roots: &Vec<ViewId>, replacement: Option<View>) -> (result: Result<
        WorkspaceMutation<Option<ViewId>>,
        LayoutError,
    >)
        requires
            old(self).valid(),
            old(self).model().scene_revision < u64::MAX,
            replacement is Some ==> old(self).model().next_view_id < u64::MAX,
            roots@.len() > 0,
        ensures
            match result {
                Ok(mutation) => {
                    &&& mutation.output == if replacement is Some {
                        Some(ViewId(old(self).model().next_view_id))
                    } else {
                        None
                    }
                    &&& final(self).valid()
                    &&& exists|step: ReplaceStep|
                        step.roots == numbers_of(roots@) && #[trigger] roots_closed(
                            old(self).model(),
                            final(self).model(),
                            old(self).said(*final(self)),
                            models_of(mutation.removed@),
                            optional_model(replacement),
                            step,
                        )
                    &&& old(self).went_on(*final(self))
                },
                Err(error) => exists|step: ReplaceStep, stop: StopStep, said: Seq<Exchange>|
                    step.roots == numbers_of(roots@) && old(self).may_say(said)
                        && #[trigger] roots_stop(
                        old(self).model(),
                        optional_model(replacement),
                        step,
                        stop,
                        said,
                        error,
                    ),
            },
    {
        let ghost before = self.model();
        let ghost start = *self;
        let ghost numbers = numbers_of(roots@);
        let ghost given = optional_model(replacement);
        proof {
            lemma_nothing_said_yet(start, *self);
        }
        let mut removed: Vec<RemovedView> = Vec::new();
        let mut skipped: Option<ViewId> = None;
        let mut output: Option<ViewId> = None;
        let ghost mut step = ReplaceStep {
            roots: numbers,
            start: before,
            replaced: before,
            said: Seq::empty(),
            removed: Seq::empty(),
            target: before.focused,
            spaces: Seq::empty(),
            scene: scene_of(before),
            end: before,
            closing: Seq::empty(),
            closed: Seq::empty(),
            steps: Seq::empty(),
        };
        assert(models_of(removed@) =~= Seq::empty());
        if let Some(view) = replacement {
            let ghost model = view.model();
            let (root, mutation) = match self.replace_root(roots, view) {
                Ok(replaced) => replaced,
                Err(error) => {
                    proof {
                        reveal(roots_stop);
                        let said = choose|said: Seq<Exchange>| #[trigger]
                            start.may_say(said) && start_refuses(
                                before,
                                numbers,
                                model,
                                said,
                                error,
                            );
                        assert(roots_stop(
                            before,
                            given,
                            step,
                            nothing_closed(before),
                            said,
                            error,
                        ));
                    }
                    return Err(error);
                },
            };
            proof {
                step = choose|step: ReplaceStep| #[trigger]
                    root_replaced(
                        before,
                        self.model(),
                        model,
                        step,
                        numbers,
                        models_of(mutation.removed@),
                        start.said(*self),
                    );
            }
            skipped = Some(root);
            output = Some(mutation.output);
            removed = mutation.removed;
        }
        assert(start.said(*self) =~= step.said);
        assert(step_starts(before, given, step));
        let ghost middle = self.model();
        let ghost middle_here = *self;
        let ghost start_removed = models_of(removed@);
        let ghost list = roots_but(numbers, number_of(skipped));
        match self.close_roots(roots, skipped, &mut removed) {
            Ok(_) => {},
            Err(error) => {
                proof {
                    let stop = choose|stop: StopStep|
                        middle_here.may_say(stop.said + stop.last) && #[trigger] stopped_in_turn(
                            middle,
                            list,
                            stop,
                            error,
                        );
                    reveal(roots_stop);
                    lemma_may_say_later(start, middle_here, stop.said + stop.last);
                    assert(roots_stop(
                        before,
                        given,
                        step,
                        stop,
                        step.said + (stop.said + stop.last),
                        error,
                    ));
                }
                return Err(error);
            },
        }
        let ghost (closing, closed, steps) = choose|
            closing: Seq<Exchange>,
            closed: Seq<(u64, ViewModel)>,
            steps: Seq<CloseStep>,
        |
            #![trigger closed_in_turn(middle, self.model(), closing, closed, list, steps)]
            closed_in_turn(middle, self.model(), closing, closed, list, steps)
                && middle_here.said(*self) == closing && models_of(removed@) == start_removed
                + closed;
        proof {
            lemma_said(start, middle_here, *self);
        }
        let ghost closed_here = *self;
        let ghost end = self.model();
        self.revise();
        proof {
            law_free_changes_keep_soundness(end, self.model());
        }
        proof {
            let whole = ReplaceStep { end, closing, closed, steps, ..step };
            assert(start.said(*self) =~= start.said(closed_here));
            assert(step_starts(before, given, whole));
            reveal(roots_closed);
            assert(roots_closed(
                before,
                self.model(),
                start.said(*self),
                models_of(removed@),
                given,
                whole,
            ));
        }
        let ghost gone = models_of(removed@);
        let result: Result<WorkspaceMutation<Option<ViewId>>, LayoutError> = Ok(
            WorkspaceMutation { output, removed },
        );
        assert(models_of(result->Ok_0.removed@) == gone);
        result
    }

    /// Closes every view on a content, with everything that is part of them. Where the focus
    /// would have nowhere to go, another view comes in the place of one of them.
    pub fn close_content_views(&mut self, content: ContentId, replacement: Option<View>) -> (result:
        Result<WorkspaceMutation<Option<ViewId>>, LayoutError>)
        requires
            old(self).valid(),
            old(self).model().scene_revision < u64::MAX,
            replacement is Some ==> old(self).model().next_view_id < u64::MAX,
        ensures
            ({
                let before = old(self).model();
                &&& result is Err ==> *final(self) == *old(self)
                &&& if exists|view: u64| #[trigger] without_owner(before, content, view) {
                    result matches Err(error) && exists|view: u64| #[trigger]
                        without_owner(before, content, view) && error
                            == LayoutError::InvalidWorkspace(
                            WorkspaceFault::NoSwitchableOwner(ViewId(view)),
                        )
                } else if !has_removal_root(before, content) {
                    result matches Ok(mutation) && mutation.output is None && mutation.removed@.len()
                        == 0 && *final(self) == *old(self)
                } else if needs_replacement(before, content) != (replacement is Some) {
                    result matches Err(error) && error == LayoutError::InvalidWorkspace(
                        WorkspaceFault::ReplacementMismatch,
                    )
                } else {
                    match result {
                        Ok(mutation) => {
                            &&& mutation.output == if replacement is Some {
                                Some(ViewId(before.next_view_id))
                            } else {
                                None
                            }
                            &&& final(self).valid()
                            &&& exists|step: ReplaceStep| #[trigger]
                                content_closed(
                                    before,
                                    final(self).model(),
                                    old(self).said(*final(self)),
                                    models_of(mutation.removed@),
                                    content,
                                    optional_model(replacement),
                                    step,
                                )
                            &&& old(self).went_on(*final(self))
                            &&& final(self).model().scene_revision == before.scene_revision + 1
                            &&& replacement is Some ==> final(self).model().views.contains_key(
                                before.next_view_id,
                            )
                            &&& forall|view: u64| #[trigger]
                                before.views.contains_key(view) ==> (final(self).model()
                                    .views.contains_key(view) <==> !goes_with(
                                    before,
                                    content,
                                    view,
                                ))
                            &&& forall|view: u64| #[trigger]
                                lists(models_of(mutation.removed@), view) <==> goes_with(
                                    before,
                                    content,
                                    view,
                                )
                            &&& forall|view: u64| #[trigger]
                                final(self).model().views.contains_key(view) && document_of(
                                    final(self).model().views[view],
                                ) == Some(content) ==> mutation.output == Some(ViewId(view))
                        },
                        Err(error) => exists|
                            step: ReplaceStep,
                            stop: StopStep,
                            said: Seq<Exchange>,
                        |
                            old(self).may_say(said) && #[trigger] content_stops(
                                before,
                                content,
                                optional_model(replacement),
                                step,
                                stop,
                                said,
                                error,
                            ),
                    }
                }
            }),
    {
        let ghost before = self.model();
        let roots = match self.content_removal_roots(content) {
            Ok(roots) => roots,
            Err(error) => {
                return Err(error);
            },
        };
        let ghost numbers = numbers_of(roots@);
        if roots.len() == 0 {
            assert(numbers.len() == 0);
            return Ok(WorkspaceMutation { output: None, removed: Vec::new() });
        }
        assert(numbers[0] == roots@[0].0);
        assert(numbers.contains(numbers[0]));
        assert(is_removal_root(before, content, numbers[0]));
        let needed = match self.closing_content_needs_replacement(content) {
            Ok(needed) => needed,
            Err(error) => {
                return Err(error);
            },
        };
        if needed != replacement.is_some() {
            return Err(LayoutError::InvalidWorkspace(WorkspaceFault::ReplacementMismatch));
        }
        let ghost given = optional_model(replacement);
        let mut draft = self.draft();
        let ghost start = draft;
        proof {
            lemma_nothing_said_yet(*self, start);
        }
        let mutation = match draft.close_from(&roots, replacement) {
            Ok(mutation) => mutation,
            Err(error) => {
                proof {
                    let (step, stop, said) = choose|
                        step: ReplaceStep,
                        stop: StopStep,
                        said: Seq<Exchange>,
                    |
                        step.roots == numbers && start.may_say(said) && #[trigger] roots_stop(
                            before,
                            given,
                            step,
                            stop,
                            said,
                            error,
                        );
                    lemma_may_say_later(*self, start, said);
                    assert(self.said(start) + said =~= said);
                    assert(content_stops(before, content, given, step, stop, said, error));
                }
                return Err(error);
            },
        };
        proof {
            lemma_said(*self, start, draft);
            let said = self.said(draft);
            assert(said =~= start.said(draft));
            let removed = models_of(mutation.removed@);
            let after = draft.model();
            let step = choose|step: ReplaceStep|
                step.roots == numbers && #[trigger] roots_closed(
                    before,
                    after,
                    said,
                    removed,
                    given,
                    step,
                );
            assert(content_closed(before, after, said, removed, content, given, step));
            law_content_close_is_whole(before, after, said, removed, content, given, step);
        }
        *self = draft;
        let ghost gone = models_of(mutation.removed@);
        let result: Result<WorkspaceMutation<Option<ViewId>>, LayoutError> = Ok(mutation);
        assert(models_of(result->Ok_0.removed@) == gone);
        result
    }
}

/// Some views have that number.
pub open spec fn lists(removed: Seq<(u64, ViewModel)>, view: u64) -> bool {
    exists|i: int| 0 <= i < removed.len() && (#[trigger] removed[i]).0 == view
}

/// Closing views one after the other takes out exactly what is told to have been removed, and
/// leaves what the other views are about alone.
pub proof fn law_closing_in_turn_removes(
    before: WorkspaceModel,
    after: WorkspaceModel,
    said: Seq<Exchange>,
    removed: Seq<(u64, ViewModel)>,
    roots: Seq<u64>,
    steps: Seq<CloseStep>,
    view: u64,
)
    requires
        closed_in_turn(before, after, said, removed, roots, steps),
        before.views.contains_key(view),
    ensures
        after.views.contains_key(view) <==> !lists(removed, view),
        after.views.contains_key(view) ==> same_document(before.views[view], after.views[view]),
    decreases roots.len(),
{
    if roots.len() > 0 {
        let step = steps.last();
        law_closing_in_turn_removes(
            before,
            step.middle,
            step.said,
            step.removed,
            roots.drop_last(),
            steps.drop_last(),
            view,
        );
        let part = whole_of(step.middle, roots.last());
        let gone = listing(step.middle.views, part);
        lemma_lists_both(step.removed, gone, view);
        if step.middle.views.contains_key(view) {
            law_close_removes_its_part(
                step.middle,
                step.closed,
                step.last_said,
                roots.last(),
                step.target,
                step.neighbor,
                step.spaces,
                step.scene,
                view,
            );
            lemma_listing(step.middle.views, part, view);
        } else {
            lemma_close_adds_nothing(step, after, said, removed, roots.last(), view);
        }
    }
}

/// Closing the views on a content takes out exactly what is told to have been removed, and leaves
/// what the other views are about alone.
pub proof fn law_content_close_removes(
    before: WorkspaceModel,
    after: WorkspaceModel,
    said: Seq<Exchange>,
    removed: Seq<(u64, ViewModel)>,
    content: ContentId,
    replacement: Option<ViewModel>,
    step: ReplaceStep,
    view: u64,
)
    requires
        views_ready(before),
        content_closed(before, after, said, removed, content, replacement, step),
        before.views.contains_key(view),
    ensures
        after.views.contains_key(view) <==> !lists(removed, view),
        after.views.contains_key(view) ==> same_document(before.views[view], after.views[view]),
{
    reveal(roots_closed);
    let skipped = match replacement {
        Some(_) => Some(replaced_root(before, step.roots)),
        None => None,
    };
    let roots = roots_but(step.roots, skipped);
    lemma_lists_both(step.removed, step.closed, view);
    if let Some(model) = replacement {
        law_replacement_removes_its_part(
            before,
            step.replaced,
            step.said,
            replaced_root(before, step.roots),
            step.target,
            model,
            true,
            step.spaces,
            step.scene,
            view,
        );
        lemma_listing(before.views, whole_of(before, replaced_root(before, step.roots)), view);
    }
    if step.start.views.contains_key(view) {
        law_closing_in_turn_removes(
            step.start,
            step.end,
            step.closing,
            step.closed,
            roots,
            step.steps,
            view,
        );
    } else {
        lemma_closing_adds_nothing(
            step.start,
            step.end,
            step.closing,
            step.closed,
            roots,
            step.steps,
            view,
        );
    }
}

pub(crate) proof fn lemma_lists_both(
    first: Seq<(u64, ViewModel)>,
    second: Seq<(u64, ViewModel)>,
    view: u64,
)
    ensures
        lists(first + second, view) == (lists(first, view) || lists(second, view)),
{
    let whole = first + second;
    if lists(first, view) {
        let i = choose|i: int| 0 <= i < first.len() && (#[trigger] first[i]).0 == view;
        assert(whole[i].0 == view);
    }
    if lists(second, view) {
        let i = choose|i: int| 0 <= i < second.len() && (#[trigger] second[i]).0 == view;
        assert(whole[first.len() + i].0 == view);
    }
    if lists(whole, view) {
        let i = choose|i: int| 0 <= i < whole.len() && (#[trigger] whole[i]).0 == view;
        if i < first.len() {
            assert(first[i].0 == view);
        } else {
            assert(second[i - first.len()].0 == view);
        }
    }
}

pub(crate) proof fn lemma_listing(views: Map<u64, ViewModel>, list: Seq<u64>, view: u64)
    ensures
        lists(listing(views, list), view) == list.contains(view),
{
    let all = listing(views, list);
    if list.contains(view) {
        let i = choose|i: int| 0 <= i < list.len() && list[i] == view;
        assert(all[i].0 == view);
    }
    if lists(all, view) {
        let i = choose|i: int| 0 <= i < all.len() && (#[trigger] all[i]).0 == view;
        assert(list[i] == view);
    }
}

proof fn lemma_close_adds_nothing(
    step: CloseStep,
    after: WorkspaceModel,
    said: Seq<Exchange>,
    removed: Seq<(u64, ViewModel)>,
    root: u64,
    view: u64,
)
    requires
        step_closes(step, after, said, removed, root),
        !step.middle.views.contains_key(view),
    ensures
        !after.views.contains_key(view),
{
    reveal(was_closed);
    assert(!step.closed.views.dom().contains(view));
}

pub(crate) proof fn lemma_closing_adds_nothing(
    before: WorkspaceModel,
    after: WorkspaceModel,
    said: Seq<Exchange>,
    removed: Seq<(u64, ViewModel)>,
    roots: Seq<u64>,
    steps: Seq<CloseStep>,
    view: u64,
)
    requires
        closed_in_turn(before, after, said, removed, roots, steps),
        !before.views.contains_key(view),
    ensures
        !after.views.contains_key(view),
    decreases roots.len(),
{
    if roots.len() > 0 {
        let step = steps.last();
        lemma_closing_adds_nothing(
            before,
            step.middle,
            step.said,
            step.removed,
            roots.drop_last(),
            steps.drop_last(),
            view,
        );
        lemma_close_adds_nothing(step, after, said, removed, roots.last(), view);
    }
}

/// One more view is closed.
proof fn lemma_next_turn(
    before: WorkspaceModel,
    after: WorkspaceModel,
    said: Seq<Exchange>,
    removed: Seq<(u64, ViewModel)>,
    roots: Seq<u64>,
    steps: Seq<CloseStep>,
    root: u64,
    step: CloseStep,
)
    requires
        closed_in_turn(before, step.middle, step.said, step.removed, roots, steps),
        step_closes(step, after, said, removed, root),
    ensures
        closed_in_turn(before, after, said, removed, roots.push(root), steps.push(step)),
{
    let list = roots.push(root);
    let trace = steps.push(step);
    assert(list.drop_last() =~= roots);
    assert(list.last() == root);
    assert(trace.drop_last() =~= steps);
    assert(trace.last() == step);
}

/// The first of the views come first without one of them, too.
proof fn lemma_roots_but_prefix(roots: Seq<u64>, skipped: Option<u64>, count: int)
    requires
        0 <= count <= roots.len(),
    ensures
        roots_but(roots.take(count), skipped).is_prefix_of(roots_but(roots, skipped)),
    decreases roots.len(),
{
    if count < roots.len() {
        assert(roots.drop_last().take(count) =~= roots.take(count));
        lemma_roots_but_prefix(roots.drop_last(), skipped, count);
    } else {
        assert(roots.take(count) =~= roots);
    }
}

proof fn lemma_no_focus(workspace: WorkspaceModel, roots: Seq<u64>, i: int)
    requires
        view_at(workspace.nodes, workspace.focused) is None,
    ensures
        first_with_focus(workspace, roots, i) is None,
    decreases roots.len() - i,
{
    if i < roots.len() {
        lemma_no_focus(workspace, roots, i + 1);
    }
}

proof fn lemma_were_removed(removed: Seq<RemovedView>, list: Seq<u64>, views: Map<u64, ViewModel>)
    requires
        were_removed(removed, list, views),
    ensures
        models_of(removed) == listing(views, list),
{
    assert(models_of(removed) =~= listing(views, list));
}

} // verus!
