//! Takes views out of a workspace, or puts others in their place.

use crate::protocol::{SpaceId, ViewId};
use crate::view::forest::{
    law_parent_is_outside, law_subtree_is_closed, law_subtree_is_what_is_under, numbers_of, subtree,
    SubtreeFault,
};
use crate::view::instance::{child_removed, child_replaced, holds_id, with_pane, View, ViewModel};
use crate::view::layout::{LayoutError, StatusBarPlacement, WorkspaceFault};
use crate::view::panes::{BODY_PANE, STATUS_PANE};
use crate::view::scene::{
    focus_after, view_at, CloseResult, Exchange, SceneAnswer, SceneBuilder, SceneModel,
    SceneRequest,
};
use crate::view::soundness::{family_agrees, scene_of, views_ready, workspace_sound, WorkspaceModel};
use crate::view::talk::{begins, requests_of, stops_at};
use crate::view::workspace::changes::{settle_refuses, settled};
use crate::view::workspace::queries::{
    close_refusal, focus_remains, lemma_sound_forest, lemma_view_set, subtree_refusal, subtree_root,
    view_set,
};
use crate::view::workspace::removal::{closing_order, pruned, were_removed};
use crate::view::workspace::steps::{
    added, refocused, same_but_scene, sync_requests, with_scene, with_view,
};
use crate::view::workspace::{
    entry_mut, group_talk, lemma_just_said, lemma_nothing_said_yet, lemma_said, lemma_scene_after,
    ViewWorkspace, WorkspaceMutation,
};
use vstd::prelude::*;
use vstd::view::View as _;

verus! {

broadcast use {vstd::std_specs::hash::group_hash_axioms, group_talk};

/// A view and everything that is part of it.
pub open spec fn whole_of(workspace: WorkspaceModel, root: u64) -> Seq<u64> {
    subtree(workspace.views, root)->Ok_0
}

/// The views that go with what a space shows.
pub open spec fn part_of(workspace: WorkspaceModel, target: SpaceId) -> Seq<u64> {
    whole_of(workspace, subtree_root(workspace, target))
}

/// A space shows one of the views.
pub open spec fn shows_one(workspace: WorkspaceModel, space: SpaceId, views: Set<u64>) -> bool {
    view_at(workspace.nodes, space) matches Some(view) && views.contains(view.0)
}

/// The one status bar, where it would go with the views: it is kept for another view.
pub open spec fn kept_global(workspace: WorkspaceModel, removed: Set<u64>) -> Seq<SpaceId> {
    match workspace.global_status {
        Some(space) => if shows_one(workspace, space, removed) {
            seq![space]
        } else {
            Seq::empty()
        },
        None => Seq::empty(),
    }
}

/// What is asked of a builder to close some spaces.
pub open spec fn close_requests(spaces: Seq<SpaceId>) -> Seq<SceneRequest> {
    spaces.map_values(|space: SpaceId| SceneRequest::Close { space })
}

/// The workspace with a child taken from its parent.
pub open spec fn orphaned(
    workspace: WorkspaceModel,
    parent: Option<ViewId>,
    child: ViewId,
) -> WorkspaceModel {
    match parent {
        Some(parent) => with_view(
            workspace,
            parent.0,
            ViewModel {
                children: child_removed(workspace.views[parent.0].children, child),
                ..workspace.views[parent.0]
            },
        ),
        None => workspace,
    }
}

/// The workspace with a child put in the place of another.
pub open spec fn adopted(
    workspace: WorkspaceModel,
    parent: Option<ViewId>,
    child: ViewId,
    replacement: ViewId,
) -> WorkspaceModel {
    match parent {
        Some(parent) => with_view(
            workspace,
            parent.0,
            ViewModel {
                children: child_replaced(
                    workspace.views[parent.0].children,
                    child,
                    replacement,
                ),
                ..workspace.views[parent.0]
            },
        ),
        None => workspace,
    }
}

/// The workspace without a view and what is part of it, before the focus moves.
pub open spec fn closed_draft(
    workspace: WorkspaceModel,
    root: u64,
    scene: SceneModel,
) -> WorkspaceModel {
    orphaned(
        pruned(with_scene(workspace, scene), whole_of(workspace, root).to_set()),
        workspace.views[root].parent,
        ViewId(root),
    )
}

/// Where the focus should go once a view is closed with what is part of it.
pub open spec fn focus_after_close(
    workspace: WorkspaceModel,
    root: u64,
    neighbor: Option<SpaceId>,
) -> Option<SpaceId> {
    if shows_one(workspace, workspace.focused, whole_of(workspace, root).to_set()) {
        neighbor
    } else {
        Some(workspace.focused)
    }
}

/// A view has been closed with what is part of it, `target` last of its spaces. `spaces` are the
/// others, and `scene` and `neighbor` are what the builder gave.
#[verifier::opaque]
pub open spec fn was_closed(
    before: WorkspaceModel,
    after: WorkspaceModel,
    said: Seq<Exchange>,
    root: u64,
    target: SpaceId,
    neighbor: Option<SpaceId>,
    spaces: Seq<SpaceId>,
    scene: SceneModel,
) -> bool {
    let list = whole_of(before, root);
    let draft = closed_draft(before, root, scene);
    let preferred = focus_after_close(before, root, neighbor);
    &&& after.views.dom() == before.views.dom().difference(list.to_set())
    &&& closing_order(before, list, target, kept_global(before, list.to_set()), spaces)
    &&& focus_after(draft.nodes, draft.focused, preferred) is Some
    &&& after == settled(draft, preferred, scene_of(after))
    &&& requests_of(said) == close_requests(spaces.push(target)) + sync_requests(
        refocused(draft, preferred),
    )
    &&& said[spaces.len() as int].answer == SceneAnswer::Closed(neighbor)
    &&& said[spaces.len() as int].after == scene
}

/// The status bar of its own that the view in a space has.
pub open spec fn own_status(workspace: WorkspaceModel, target: SpaceId) -> Option<SpaceId> {
    match (workspace.placement, view_at(workspace.nodes, target)) {
        (StatusBarPlacement::PerPane, Some(view)) => if workspace.status_by_editor.contains_key(
            view.0,
        ) {
            Some(workspace.status_by_editor[view.0])
        } else {
            None
        },
        _ => None,
    }
}

/// The spaces that stay for the view that comes in the place of another.
pub open spec fn kept_for(workspace: WorkspaceModel, root: u64, target: SpaceId) -> Seq<SpaceId> {
    let global = kept_global(workspace, whole_of(workspace, root).to_set());
    match own_status(workspace, target) {
        Some(space) => seq![space] + global,
        None => global,
    }
}

/// The view that comes in the place of another, where that was shown.
pub open spec fn replacing_view(
    workspace: WorkspaceModel,
    root: u64,
    target: SpaceId,
    view: ViewModel,
) -> ViewModel {
    let shown = with_pane(view, target, BODY_PANE@);
    let with_status = match own_status(workspace, target) {
        Some(status) => with_pane(shown, status, STATUS_PANE@),
        None => shown,
    };
    match workspace.views[root].parent {
        Some(parent) => ViewModel { parent: Some(parent), ..with_status },
        None => with_status,
    }
}

/// The workspace with another view in the place of one and what is part of it, before the focus
/// moves.
pub open spec fn replaced_draft(
    workspace: WorkspaceModel,
    root: u64,
    target: SpaceId,
    view: ViewModel,
    scene: SceneModel,
) -> WorkspaceModel {
    let left = adopted(
        pruned(with_scene(workspace, scene), whole_of(workspace, root).to_set()),
        workspace.views[root].parent,
        ViewId(root),
        ViewId(workspace.next_view_id),
    );
    let indexed = match own_status(workspace, target) {
        Some(status) => WorkspaceModel {
            status_by_editor: left.status_by_editor.insert(workspace.next_view_id, status),
            ..left
        },
        None => left,
    };
    added(indexed, replacing_view(workspace, root, target, view))
}

/// What is asked of a builder to show another view in the place of what a space shows.
pub open spec fn replace_requests(
    workspace: WorkspaceModel,
    target: SpaceId,
    focusable: bool,
) -> Seq<SceneRequest> {
    let view = ViewId(workspace.next_view_id);
    let first = seq![SceneRequest::Replace { target, view, focusable }];
    match own_status(workspace, target) {
        Some(status) => first.push(
            SceneRequest::Replace { target: status, view, focusable: false },
        ),
        None => first,
    }
}

/// Another view has come in the place of one and what is part of it, in the space `target`.
/// `spaces` are the others that went with that, and `scene` is what the builder gave.
#[verifier::opaque]
pub open spec fn was_replaced(
    before: WorkspaceModel,
    after: WorkspaceModel,
    said: Seq<Exchange>,
    root: u64,
    target: SpaceId,
    view: ViewModel,
    focusable: bool,
    spaces: Seq<SpaceId>,
    scene: SceneModel,
) -> bool {
    let list = whole_of(before, root);
    let draft = replaced_draft(before, root, target, view, scene);
    let preferred = focus_after_close(before, root, Some(target));
    let first = close_requests(spaces) + replace_requests(before, target, focusable);
    &&& after.views.dom() == before.views.dom().difference(list.to_set()).insert(
        before.next_view_id,
    )
    &&& closing_order(before, list, target, kept_for(before, root, target), spaces)
    &&& focus_after(draft.nodes, draft.focused, preferred) is Some
    &&& after == settled(draft, preferred, scene_of(after))
    &&& requests_of(said) == first + sync_requests(refocused(draft, preferred))
    &&& said[first.len() - 1].after == scene
}

/// Why another view cannot come in the place of what a space shows.
pub open spec fn replace_refusal(
    workspace: WorkspaceModel,
    target: SpaceId,
    focusable: bool,
) -> Option<LayoutError> {
    match subtree_refusal(workspace, target) {
        Some(error) => Some(error),
        None => if focusable || focus_remains(workspace, part_of(workspace, target).to_set()) {
            None
        } else {
            Some(LayoutError::NoFocusableSpace)
        },
    }
}

/// The error says why a view cannot be closed, with what was said to the builder for it: the
/// builder refused, or what it gave does not fit.
pub open spec fn close_refuses(
    before: WorkspaceModel,
    root: u64,
    target: SpaceId,
    spaces: Seq<SpaceId>,
    said: Seq<Exchange>,
    error: LayoutError,
) -> bool {
    let list = whole_of(before, root);
    let first = close_requests(spaces.push(target));
    let last = said[spaces.len() as int];
    &&& closing_order(before, list, target, kept_global(before, list.to_set()), spaces)
    &&& stops_at(said, first, error) || (begins(said, first) && (last.answer matches
        SceneAnswer::Closed(neighbor) && settle_refuses(
        closed_draft(before, root, last.after),
        focus_after_close(before, root, neighbor),
        said.skip(first.len() as int),
        error,
    )))
}

/// The error says why a view cannot be closed, with what was said to the builder for it.
pub open spec fn cannot_close(
    before: WorkspaceModel,
    root: u64,
    target: SpaceId,
    said: Seq<Exchange>,
    error: LayoutError,
) -> bool {
    exists|spaces: Seq<SpaceId>| #[trigger] close_refuses(before, root, target, spaces, said, error)
}

/// The error says why another view cannot come in the place of one, with what was said to the
/// builder for it: the builder refused, or what it gave does not fit.
pub open spec fn replace_refuses(
    before: WorkspaceModel,
    root: u64,
    target: SpaceId,
    view: ViewModel,
    focusable: bool,
    spaces: Seq<SpaceId>,
    said: Seq<Exchange>,
    error: LayoutError,
) -> bool {
    let list = whole_of(before, root);
    let first = close_requests(spaces) + replace_requests(before, target, focusable);
    &&& closing_order(before, list, target, kept_for(before, root, target), spaces)
    &&& stops_at(said, first, error) || (begins(said, first) && settle_refuses(
        replaced_draft(before, root, target, view, said[first.len() - 1].after),
        focus_after_close(before, root, Some(target)),
        said.skip(first.len() as int),
        error,
    ))
}

/// The error says why another view cannot come in the place of one, with what was said to the
/// builder for it.
pub open spec fn cannot_replace(
    before: WorkspaceModel,
    root: u64,
    target: SpaceId,
    view: ViewModel,
    focusable: bool,
    said: Seq<Exchange>,
    error: LayoutError,
) -> bool {
    exists|spaces: Seq<SpaceId>| #[trigger]
        replace_refuses(before, root, target, view, focusable, spaces, said, error)
}

/// Why a view cannot be closed with what is part of it.
pub open spec fn root_refusal(
    workspace: WorkspaceModel,
    root: u64,
    target: SpaceId,
) -> Option<LayoutError> {
    if focus_remains(workspace, whole_of(workspace, root).to_set()) {
        None
    } else {
        Some(LayoutError::WouldRemoveLastFocusable(target))
    }
}

/// Why another view cannot come in the place of one and what is part of it.
pub open spec fn root_replacement_refusal(
    workspace: WorkspaceModel,
    root: u64,
    focusable: bool,
) -> Option<LayoutError> {
    if focusable || focus_remains(workspace, whole_of(workspace, root).to_set()) {
        None
    } else {
        Some(LayoutError::NoFocusableSpace)
    }
}

/// What goes with a view is there, each view once, and the view above it stays.
proof fn lemma_part_is_there(workspace: WorkspaceModel, root: u64, list: Seq<ViewId>)
    requires
        views_ready(workspace),
        workspace_sound(workspace),
        workspace.views.contains_key(root),
        subtree(workspace.views, root) == Ok::<Seq<u64>, SubtreeFault>(numbers_of(list)),
    ensures
        numbers_of(list).no_duplicates(),
        forall|i: int| 0 <= i < list.len() ==> workspace.views.contains_key((#[trigger] list[i]).0),
        workspace.views[root].parent matches Some(parent) ==> {
            &&& workspace.views.contains_key(parent.0)
            &&& !view_set(list).contains(parent.0)
            &&& workspace.views[parent.0].children.contains(ViewId(root))
        },
{
    lemma_sound_forest(workspace);
    law_subtree_is_closed(workspace.views, root);
    let numbers = numbers_of(list);
    assert forall|i: int| 0 <= i < list.len() implies workspace.views.contains_key(
        (#[trigger] list[i]).0,
    ) by {
        assert(numbers[i] == list[i].0);
    }
    if let Some(parent) = workspace.views[root].parent {
        law_parent_is_outside(workspace.views, root, parent);
        law_subtree_is_what_is_under(workspace.views, root, parent.0);
        assert(family_agrees(workspace.views, root));
    }
}

impl<B: SceneBuilder> ViewWorkspace<B> {
    /// Has the builder close some spaces, one after the other.
    fn close_spaces(&mut self, spaces: &Vec<SpaceId>) -> (result: Result<(), LayoutError>)
        ensures
            same_but_scene(old(self).model(), final(self).model()),
            old(self).went_on(*final(self)),
            match result {
                Ok(_) => requests_of(old(self).said(*final(self))) == close_requests(spaces@),
                Err(error) => stops_at(
                    old(self).said(*final(self)),
                    close_requests(spaces@),
                    error,
                ),
            },
    {
        let ghost start = *self;
        let mut i: usize = 0;
        proof {
            lemma_nothing_said_yet(start, *self);
            assert(close_requests(spaces@.take(0)) =~= Seq::empty());
        }
        while i < spaces.len()
            invariant
                i <= spaces.len(),
                start == *old(self),
                same_but_scene(start.model(), self.model()),
                start.went_on(*self),
                requests_of(start.said(*self)) == close_requests(spaces@.take(i as int)),
            decreases spaces.len() - i,
        {
            let ghost here = *self;
            let result = self.scene_close(spaces[i]);
            proof {
                let exchange = self.talk().last();
                lemma_just_said(here, *self, exchange);
                lemma_said(start, here, *self);
                let next = spaces@.take(i + 1);
                assert(close_requests(next) =~= close_requests(spaces@.take(i as int)) + seq![
                    SceneRequest::Close { space: spaces@[i as int] },
                ]);
                assert(requests_of(start.said(*self)) == close_requests(next));
                assert(requests_of(start.said(*self)).len() == start.said(*self).len());
                assert(close_requests(next) =~= close_requests(spaces@).take(i + 1));
                assert(start.said(*self).last() == exchange);
            }
            match result {
                Ok(_) => {},
                Err(error) => {
                    return Err(error);
                },
            }
            i = i + 1;
        }
        assert(spaces@.take(i as int) =~= spaces@);
        Ok(())
    }

    /// Whether a space shows one of the views.
    fn shows_one_of(&self, space: SpaceId, views: &Vec<ViewId>) -> (shows: bool)
        ensures
            shows == shows_one(self.model(), space, view_set(views@)),
    {
        match self.view_for_space(space) {
            Some(view) => {
                proof {
                    lemma_view_set(views@, view);
                }
                holds_id(views, view)
            },
            None => false,
        }
    }

    /// The one status bar, where it would go with the views.
    fn kept_global_status(&self, views: &Vec<ViewId>) -> (kept: Vec<SpaceId>)
        ensures
            kept@ == kept_global(self.model(), view_set(views@)),
    {
        let mut kept: Vec<SpaceId> = Vec::new();
        if let Some(space) = self.global_status_space {
            if self.shows_one_of(space, views) {
                kept.push(space);
            }
        }
        assert(kept@ =~= kept_global(self.model(), view_set(views@)));
        kept
    }

    /// Closes what a space shows, with everything that is part of it.
    pub fn close(&mut self, target: SpaceId) -> (result: Result<
        WorkspaceMutation<CloseResult>,
        LayoutError,
    >)
        requires
            old(self).valid(),
            old(self).model().scene_revision < u64::MAX,
        ensures
            ({
                let before = old(self).model();
                let root = subtree_root(before, target);
                match result {
                    Ok(mutation) => {
                        &&& close_refusal(before, target) is None
                        &&& final(self).valid()
                        &&& final(self).model().next_view_id == before.next_view_id
                        &&& final(self).model().scene_revision == before.scene_revision + 1
                        &&& were_removed(
                            mutation.removed@,
                            part_of(before, target),
                            before.views,
                        )
                        &&& exists|spaces: Seq<SpaceId>, scene: SceneModel| #[trigger]
                            was_closed(
                                before,
                                final(self).model(),
                                old(self).said(*final(self)),
                                root,
                                target,
                                mutation.output.surviving_neighbor,
                                spaces,
                                scene,
                            )
                        &&& old(self).went_on(*final(self))
                    },
                    Err(error) => {
                        &&& *final(self) == *old(self)
                        &&& match close_refusal(before, target) {
                            Some(refusal) => error == refusal,
                            None => exists|said: Seq<Exchange>| #[trigger]
                                old(self).may_say(said) && cannot_close(
                                    before,
                                    root,
                                    target,
                                    said,
                                    error,
                                ),
                        }
                    },
                }
            }),
    {
        match self.validate_subtree_target(target) {
            Ok(root) => self.close_whole(root, target),
            Err(error) => Err(error),
        }
    }

    /// Closes a view with everything that is part of it, a space of it last.
    pub(crate) fn close_whole(&mut self, root: ViewId, target: SpaceId) -> (result: Result<
        WorkspaceMutation<CloseResult>,
        LayoutError,
    >)
        requires
            old(self).valid(),
            old(self).model().scene_revision < u64::MAX,
            old(self).model().views.contains_key(root.0),
        ensures
            ({
                let before = old(self).model();
                match result {
                    Ok(mutation) => {
                        &&& root_refusal(before, root.0, target) is None
                        &&& final(self).valid()
                        &&& final(self).model().next_view_id == before.next_view_id
                        &&& final(self).model().scene_revision == before.scene_revision + 1
                        &&& were_removed(
                            mutation.removed@,
                            whole_of(before, root.0),
                            before.views,
                        )
                        &&& exists|spaces: Seq<SpaceId>, scene: SceneModel| #[trigger]
                            was_closed(
                                before,
                                final(self).model(),
                                old(self).said(*final(self)),
                                root.0,
                                target,
                                mutation.output.surviving_neighbor,
                                spaces,
                                scene,
                            )
                        &&& old(self).went_on(*final(self))
                    },
                    Err(error) => {
                        &&& *final(self) == *old(self)
                        &&& match root_refusal(before, root.0, target) {
                            Some(refusal) => error == refusal,
                            None => exists|said: Seq<Exchange>| #[trigger]
                                old(self).may_say(said) && cannot_close(
                                    before,
                                    root.0,
                                    target,
                                    said,
                                    error,
                                ),
                        }
                    },
                }
            }),
    {
        let ghost before = self.model();
        let mut draft = self.draft();
        let ghost start = draft;
        let list = draft.known_subtree(root);
        assert(numbers_of(list@) == whole_of(before, root.0));
        proof {
            lemma_part_is_there(before, root.0, list@);
        }
        if !draft.has_focus_outside(&list) {
            return Err(LayoutError::WouldRemoveLastFocusable(target));
        }
        let previous = draft.focused;
        let focus_goes = draft.shows_one_of(previous, &list);
        let kept = draft.kept_global_status(&list);
        let spaces = match draft.ordered_subtree_spaces(&list, target, &kept) {
            Ok(spaces) => spaces,
            Err(error) => {
                return Err(error);
            },
        };
        let ghost first = close_requests(spaces@.push(target));
        assert(first =~= close_requests(spaces@) + seq![SceneRequest::Close { space: target }]);
        let closing = draft.close_spaces(&spaces);
        proof {
            lemma_nothing_said_yet(*self, start);
            lemma_said(*self, start, draft);
            assert(self.said(draft) =~= start.said(draft));
        }
        match closing {
            Ok(_) => {},
            Err(error) => {
                proof {
                    let said = self.said(draft);
                    assert(first.take(said.len() as int) =~= close_requests(spaces@).take(
                        said.len() as int,
                    ));
                    assert(close_refuses(before, root.0, target, spaces@, said, error));
                }
                return Err(error);
            },
        }
        let ghost middle = draft;
        let result = draft.scene_close(target);
        let ghost exchange = draft.talk().last();
        proof {
            lemma_just_said(middle, draft, exchange);
            lemma_said(*self, middle, draft);
            assert(requests_of(self.said(draft)) == first);
            assert(requests_of(self.said(draft)).len() == self.said(draft).len());
            assert(requests_of(self.said(middle)).len() == self.said(middle).len());
            assert(self.said(draft)[spaces@.len() as int] == exchange);
        }
        let closed = match result {
            Ok(closed) => closed,
            Err(error) => {
                proof {
                    let said = self.said(draft);
                    assert(first.take(said.len() as int) =~= first);
                    assert(close_refuses(before, root.0, target, spaces@, said, error));
                }
                return Err(error);
            },
        };
        let ghost scene = scene_of(draft.model());
        let parent = match draft.view(root) {
            Some(data) => data.parent(),
            None => None,
        };
        let removed = match draft.remove_views(&list) {
            Ok(removed) => removed,
            Err(error) => {
                return Err(error);
            },
        };
        if let Some(parent) = parent {
            match draft.take_child(parent, root) {
                Ok(_) => {},
                Err(error) => {
                    return Err(error);
                },
            }
        }
        assert(draft.model() =~= closed_draft(before, root.0, scene));
        assert(draft.model().views.dom() =~= before.views.dom().difference(view_set(list@)));
        let ghost settling = draft;
        let preferred = if focus_goes {
            closed.surviving_neighbor
        } else {
            Some(previous)
        };
        let result = draft.settle(preferred);
        proof {
            lemma_said(*self, settling, draft);
            let said = self.said(draft);
            assert(said.take(first.len() as int) =~= self.said(settling));
            assert(said.skip(first.len() as int) =~= settling.said(draft));
            assert(said[spaces@.len() as int] == exchange);
        }
        match result {
            Ok(_) => {},
            Err(error) => {
                assert(close_refuses(
                    before,
                    root.0,
                    target,
                    spaces@,
                    self.said(draft),
                    error,
                ));
                return Err(error);
            },
        }
        proof {
            reveal(was_closed);
            assert(was_closed(
                before,
                draft.model(),
                self.said(draft),
                root.0,
                target,
                closed.surviving_neighbor,
                spaces@,
                scene,
            ));
        }
        *self = draft;
        Ok(WorkspaceMutation { output: closed, removed })
    }

    /// Takes a child from its parent.
    fn take_child(&mut self, parent: ViewId, child: ViewId) -> (result: Result<(), LayoutError>)
        requires
            views_ready(old(self).model()),
        ensures
            final(self).talk() == old(self).talk(),
            old(self).went_on(*final(self)),
            views_ready(final(self).model()),
            match result {
                Ok(_) => {
                    &&& final(self).model() == orphaned(old(self).model(), Some(parent), child)
                    &&& final(self).model().views.dom() == old(self).model().views.dom()
                },
                Err(error) => error == LayoutError::MissingView(parent) && !old(
                    self,
                ).model().views.contains_key(parent.0),
            },
    {
        let ghost before = self.model();
        match entry_mut(&mut self.views, parent.0) {
            Some(data) => {
                data.remove_child(child);
            },
            None => {
                assert(self.model() =~= before);
                return Err(LayoutError::MissingView(parent));
            },
        }
        let ghost after = orphaned(before, Some(parent), child);
        assert(self.model().views =~= after.views);
        assert(self.model() =~= after);
        assert(self.model().views.dom() =~= self.views@.dom());
        assert(self.model().views.dom() =~= before.views.dom());
        Ok(())
    }

    /// Puts a child in the place of another.
    fn switch_child(&mut self, parent: ViewId, child: ViewId, replacement: ViewId) -> (result:
        Result<(), LayoutError>)
        requires
            views_ready(old(self).model()),
        ensures
            final(self).talk() == old(self).talk(),
            old(self).went_on(*final(self)),
            views_ready(final(self).model()),
            match result {
                Ok(_) => {
                    &&& final(self).model() == adopted(
                        old(self).model(),
                        Some(parent),
                        child,
                        replacement,
                    )
                    &&& final(self).model().views.dom() == old(self).model().views.dom()
                },
                Err(error) => if old(self).model().views.contains_key(parent.0) {
                    error == LayoutError::InvalidWorkspace(WorkspaceFault::ParentWithoutRoot) && !old(
                        self,
                    ).model().views[parent.0].children.contains(child)
                } else {
                    error == LayoutError::MissingView(parent)
                },
            },
    {
        let ghost before = self.model();
        let replaced = match entry_mut(&mut self.views, parent.0) {
            Some(data) => data.replace_child(child, replacement),
            None => {
                assert(self.model() =~= before);
                return Err(LayoutError::MissingView(parent));
            },
        };
        let ghost after = adopted(before, Some(parent), child, replacement);
        assert(self.model().views =~= after.views);
        assert(self.model() =~= after);
        assert(self.model().views.dom() =~= self.views@.dom());
        assert(self.model().views.dom() =~= before.views.dom());
        if !replaced {
            return Err(LayoutError::InvalidWorkspace(WorkspaceFault::ParentWithoutRoot));
        }
        Ok(())
    }

    /// Shows another view in the place of what a space shows.
    pub fn replace(&mut self, target: SpaceId, replacement: View, focusable: bool) -> (result:
        Result<WorkspaceMutation<ViewId>, LayoutError>)
        requires
            old(self).valid(),
            old(self).model().scene_revision < u64::MAX,
            old(self).model().next_view_id < u64::MAX,
        ensures
            ({
                let before = old(self).model();
                let root = subtree_root(before, target);
                match result {
                    Ok(mutation) => {
                        &&& replace_refusal(before, target, focusable) is None
                        &&& mutation.output.0 == before.next_view_id
                        &&& final(self).valid()
                        &&& final(self).model().next_view_id == before.next_view_id + 1
                        &&& final(self).model().scene_revision == before.scene_revision + 1
                        &&& were_removed(
                            mutation.removed@,
                            part_of(before, target),
                            before.views,
                        )
                        &&& exists|spaces: Seq<SpaceId>, scene: SceneModel| #[trigger]
                            was_replaced(
                                before,
                                final(self).model(),
                                old(self).said(*final(self)),
                                root,
                                target,
                                replacement.model(),
                                focusable,
                                spaces,
                                scene,
                            )
                        &&& old(self).went_on(*final(self))
                    },
                    Err(error) => {
                        &&& *final(self) == *old(self)
                        &&& match replace_refusal(before, target, focusable) {
                            Some(refusal) => error == refusal,
                            None => exists|said: Seq<Exchange>| #[trigger]
                                old(self).may_say(said) && cannot_replace(
                                    before,
                                    root,
                                    target,
                                    replacement.model(),
                                    focusable,
                                    said,
                                    error,
                                ),
                        }
                    },
                }
            }),
    {
        match self.validate_subtree_target(target) {
            Ok(root) => self.replace_whole(root, target, replacement, focusable),
            Err(error) => Err(error),
        }
    }

    /// Shows another view in a space of a view, in the place of that and everything that is part
    /// of it.
    #[verifier::rlimit(60)]
    pub(crate) fn replace_whole(
        &mut self,
        root: ViewId,
        target: SpaceId,
        replacement: View,
        focusable: bool,
    ) -> (result: Result<WorkspaceMutation<ViewId>, LayoutError>)
        requires
            old(self).valid(),
            old(self).model().scene_revision < u64::MAX,
            old(self).model().next_view_id < u64::MAX,
            old(self).model().views.contains_key(root.0),
        ensures
            ({
                let before = old(self).model();
                match result {
                    Ok(mutation) => {
                        &&& root_replacement_refusal(before, root.0, focusable) is None
                        &&& mutation.output.0 == before.next_view_id
                        &&& final(self).valid()
                        &&& final(self).model().next_view_id == before.next_view_id + 1
                        &&& final(self).model().scene_revision == before.scene_revision + 1
                        &&& were_removed(
                            mutation.removed@,
                            whole_of(before, root.0),
                            before.views,
                        )
                        &&& exists|spaces: Seq<SpaceId>, scene: SceneModel| #[trigger]
                            was_replaced(
                                before,
                                final(self).model(),
                                old(self).said(*final(self)),
                                root.0,
                                target,
                                replacement.model(),
                                focusable,
                                spaces,
                                scene,
                            )
                        &&& old(self).went_on(*final(self))
                    },
                    Err(error) => {
                        &&& *final(self) == *old(self)
                        &&& match root_replacement_refusal(before, root.0, focusable) {
                            Some(refusal) => error == refusal,
                            None => exists|said: Seq<Exchange>| #[trigger]
                                old(self).may_say(said) && cannot_replace(
                                    before,
                                    root.0,
                                    target,
                                    replacement.model(),
                                    focusable,
                                    said,
                                    error,
                                ),
                        }
                    },
                }
            }),
    {
        let ghost before = self.model();
        let ghost given = replacement.model();
        let mut draft = self.draft();
        let ghost start = draft;
        let list = draft.known_subtree(root);
        assert(numbers_of(list@) == whole_of(before, root.0));
        proof {
            lemma_part_is_there(before, root.0, list@);
        }
        if !focusable && !draft.has_focus_outside(&list) {
            return Err(LayoutError::NoFocusableSpace);
        }
        let previous = draft.focused;
        let focus_goes = draft.shows_one_of(previous, &list);
        let status = draft.status_of_target(target);
        let kept_global_status = draft.kept_global_status(&list);
        let mut kept: Vec<SpaceId> = Vec::new();
        if let Some(space) = status {
            kept.push(space);
        }
        if kept_global_status.len() > 0 {
            kept.push(kept_global_status[0]);
        }
        assert(kept@ =~= kept_for(before, root.0, target));
        let spaces = match draft.ordered_subtree_spaces(&list, target, &kept) {
            Ok(spaces) => spaces,
            Err(error) => {
                return Err(error);
            },
        };
        let id = ViewId(draft.next_view_id);
        let ghost first = close_requests(spaces@) + replace_requests(before, target, focusable);
        let result = draft.clear_space(&spaces, target, status, id, focusable);
        proof {
            lemma_nothing_said_yet(*self, start);
            lemma_said(*self, start, draft);
            assert(self.said(draft) =~= start.said(draft));
        }
        match result {
            Ok(_) => {},
            Err(error) => {
                assert(replace_refuses(
                    before,
                    root.0,
                    target,
                    given,
                    focusable,
                    spaces@,
                    self.said(draft),
                    error,
                ));
                return Err(error);
            },
        }
        let mut replacement = replacement;
        replacement.assign_pane(target, BODY_PANE);
        if let Some(space) = status {
            replacement.assign_pane(space, STATUS_PANE);
        }
        let ghost scene = scene_of(draft.model());
        assert(draft.model() =~= with_scene(before, scene));
        proof {
            lemma_scene_after(*self, draft);
            assert(requests_of(self.said(draft)).len() == self.said(draft).len());
        }
        let parent = match draft.view(root) {
            Some(data) => data.parent(),
            None => None,
        };
        if let Some(parent) = parent {
            replacement.set_parent(Some(parent));
        }
        assert(replacement.model() =~= replacing_view(before, root.0, target, given));
        let removed = match draft.remove_views(&list) {
            Ok(removed) => removed,
            Err(error) => {
                return Err(error);
            },
        };
        if let Some(parent) = parent {
            match draft.switch_child(parent, root, id) {
                Ok(_) => {},
                Err(error) => {
                    return Err(error);
                },
            }
        }
        if let Some(space) = status {
            let ghost here = draft.model();
            let ghost indexing = draft;
            draft.status_by_editor.insert(id.0, space);
            assert(draft.model() =~= (WorkspaceModel {
                status_by_editor: here.status_by_editor.insert(id.0, space),
                ..here
            }));
            assert(indexing.went_on(draft));
        }
        draft.add_view(replacement);
        assert(draft.model() =~= replaced_draft(before, root.0, target, given, scene));
        assert(draft.model().views.dom() =~= before.views.dom().difference(
            view_set(list@),
        ).insert(id.0));
        let ghost settling = draft;
        let preferred = if focus_goes {
            target
        } else {
            previous
        };
        let result = draft.settle(Some(preferred));
        proof {
            lemma_said(*self, settling, draft);
            let said = self.said(draft);
            assert(said.take(first.len() as int) =~= self.said(settling));
            assert(said.skip(first.len() as int) =~= settling.said(draft));
            assert(said[first.len() - 1] == self.said(settling).last());
        }
        match result {
            Ok(_) => {},
            Err(error) => {
                assert(replace_refuses(
                    before,
                    root.0,
                    target,
                    given,
                    focusable,
                    spaces@,
                    self.said(draft),
                    error,
                ));
                return Err(error);
            },
        }
        proof {
            reveal(was_replaced);
            assert(was_replaced(
                before,
                draft.model(),
                self.said(draft),
                root.0,
                target,
                given,
                focusable,
                spaces@,
                scene,
            ));
        }
        *self = draft;
        Ok(WorkspaceMutation { output: id, removed })
    }

    /// Has the builder close some spaces and show another view in one that stays, and in a status
    /// bar with it.
    fn clear_space(
        &mut self,
        spaces: &Vec<SpaceId>,
        target: SpaceId,
        status: Option<SpaceId>,
        view: ViewId,
        focusable: bool,
    ) -> (result: Result<(), LayoutError>)
        requires
            view.0 == old(self).model().next_view_id,
            status == own_status(old(self).model(), target),
        ensures
            same_but_scene(old(self).model(), final(self).model()),
            old(self).went_on(*final(self)),
            ({
                let said = old(self).said(*final(self));
                let first = close_requests(spaces@) + replace_requests(
                    old(self).model(),
                    target,
                    focusable,
                );
                match result {
                    Ok(_) => requests_of(said) == first,
                    Err(error) => stops_at(said, first, error),
                }
            }),
    {
        let ghost start = *self;
        let ghost first = close_requests(spaces@) + replace_requests(
            start.model(),
            target,
            focusable,
        );
        match self.close_spaces(spaces) {
            Ok(_) => {},
            Err(error) => {
                proof {
                    let count = start.said(*self).len() as int;
                    assert(first.take(count) =~= close_requests(spaces@).take(count));
                }
                return Err(error);
            },
        }
        let ghost middle = *self;
        let result = self.scene_replace(target, view, focusable);
        proof {
            lemma_just_said(middle, *self, self.talk().last());
            lemma_said(start, middle, *self);
            let said = start.said(*self);
            assert(requests_of(said).len() == said.len());
            assert(requests_of(said) =~= first.take(said.len() as int));
        }
        match result {
            Ok(_) => {},
            Err(error) => {
                return Err(error);
            },
        }
        if let Some(space) = status {
            let ghost here = *self;
            let result = self.scene_replace(space, view, false);
            proof {
                lemma_just_said(here, *self, self.talk().last());
                lemma_said(start, here, *self);
                let said = start.said(*self);
                assert(requests_of(said).len() == said.len());
                assert(requests_of(said) =~= first);
                assert(first.take(said.len() as int) =~= first);
            }
            return result;
        }
        assert(requests_of(start.said(*self)) =~= first);
        Ok(())
    }

    /// The status bar of its own that the view in a space has.
    fn status_of_target(&self, target: SpaceId) -> (status: Option<SpaceId>)
        ensures
            status == own_status(self.model(), target),
    {
        match (self.status_placement, self.view_for_space(target)) {
            (StatusBarPlacement::PerPane, Some(view)) => match self.status_by_editor.get(&view.0) {
                Some(space) => Some(*space),
                None => None,
            },
            _ => None,
        }
    }
}

} // verus!
