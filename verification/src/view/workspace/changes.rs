//! Changes of a workspace that a builder of scenes takes part in.
//!
//! What a builder makes of a scene is not known beforehand: a change says what it asks of the
//! builder, and what the workspace is for whatever scene came back. A scene that does not fit is
//! refused.

use crate::protocol::{Revision, SpaceId, ViewId};
use crate::view::instance::{with_pane, View, ViewModel};
use crate::view::layout::{LayoutError, StatusBarPlacement};
use crate::view::panes::{BODY_PANE, STATUS_PANE};
use crate::view::scene::{
    focus_after, focusable_at, parent_at, resolve_focus, view_space_focusable, EditorScene,
    Exchange, SceneAnswer, SceneBuilder, SceneError, SceneModel, SceneRequest, Sizing,
    SplitDirection, SplitResult,
};
use crate::view::soundness::{
    is_sole_status, law_status_space_shows_its_view, scene_of, views_ready, WorkspaceModel,
};
use crate::view::talk::{begins, refused, requests_of, scene_after, stops_at};
use crate::view::workspace::family::{law_free_changes_keep_soundness, would_be_unsound};
use crate::view::workspace::queries::body_refusal;
use crate::view::workspace::steps::{
    added, refocused, revised, sync_refuses, sync_requests, synced, with_scene,
};
use crate::view::workspace::{
    group_talk, lemma_just_said, lemma_nothing_said_yet, lemma_said, lemma_scene_after,
    ViewWorkspace,
};
use std::collections::HashMap;
use vstd::prelude::*;
use vstd::view::View as _;

verus! {

broadcast use {vstd::std_specs::hash::group_hash_axioms, group_talk};

/// The workspace with the focus on a space.
pub open spec fn focused_on(workspace: WorkspaceModel, space: SpaceId) -> WorkspaceModel {
    WorkspaceModel { focused: space, ..workspace }
}

/// The workspace with the focus where it goes, the status bar with it, and the next revision.
/// `scene` is what a builder makes of the scene where the status bar changes hands.
pub open spec fn settled(
    workspace: WorkspaceModel,
    preferred: Option<SpaceId>,
    scene: SceneModel,
) -> WorkspaceModel {
    revised(synced(refocused(workspace, preferred), scene))
}

/// The error says why a workspace cannot be settled, with what was said to the builder for it: the
/// focus has nowhere to go, the status bar cannot go with it, or what comes out is not in order.
pub open spec fn settle_refuses(
    workspace: WorkspaceModel,
    preferred: Option<SpaceId>,
    said: Seq<Exchange>,
    error: LayoutError,
) -> bool {
    let moved = refocused(workspace, preferred);
    match focus_after(workspace.nodes, workspace.focused, preferred) {
        None => said.len() == 0 && error == LayoutError::NoFocusableSpace,
        Some(_) => {
            ||| sync_refuses(moved, said, error)
            ||| requests_of(said) == sync_requests(moved) && would_be_unsound(
                settled(workspace, preferred, scene_after(said, scene_of(workspace))),
                error,
            )
        },
    }
}

/// The error says why a scene cannot be changed by one request: the builder refused it, or the
/// scene that it gave does not fit.
pub open spec fn change_refuses(
    workspace: WorkspaceModel,
    request: SceneRequest,
    said: Seq<Exchange>,
    error: LayoutError,
) -> bool {
    &&& requests_of(said) == seq![request]
    &&& refused(said, error) || would_be_unsound(
        revised(with_scene(workspace, said[0].after)),
        error,
    )
}

/// The workspace, with a scene that has new spaces for it, once a view is shown there.
pub open spec fn split_in(
    workspace: WorkspaceModel,
    view: ViewModel,
    new_space: SpaceId,
    status: Option<SpaceId>,
) -> WorkspaceModel {
    let shown = with_pane(view, new_space, BODY_PANE@);
    match status {
        Some(status) => WorkspaceModel {
            status_by_editor: workspace.status_by_editor.insert(workspace.next_view_id, status),
            ..added(workspace, with_pane(shown, status, STATUS_PANE@))
        },
        None => added(workspace, shown),
    }
}

/// What is asked of a builder for a new view next to a space.
pub open spec fn split_request(
    workspace: WorkspaceModel,
    target: SpaceId,
    focusable: bool,
    direction: SplitDirection,
) -> SceneRequest {
    let view = ViewId(workspace.next_view_id);
    match workspace.placement {
        StatusBarPlacement::Global => SceneRequest::Split { target, view, focusable, direction },
        StatusBarPlacement::PerPane => SceneRequest::SplitPane {
            target: parent_at(workspace.nodes, target)->0,
            view,
            status: view,
            focusable,
            direction,
        },
    }
}

/// What a split leaves behind, with the scene and the spaces that a builder gave.
pub struct SplitOutcome {
    pub scene: SceneModel,
    pub new_space: SpaceId,
    pub status: Option<SpaceId>,
}

/// What a builder gave for a new view.
pub open spec fn split_given(exchange: Exchange) -> Option<SplitOutcome> {
    match exchange.answer {
        SceneAnswer::Split(new_space) => Some(
            SplitOutcome { scene: exchange.after, new_space, status: None },
        ),
        SceneAnswer::Pane(pane) => Some(
            SplitOutcome {
                scene: exchange.after,
                new_space: pane.editor_space,
                status: Some(pane.status_space),
            },
        ),
        _ => None,
    }
}

/// The workspace before the focus moves, and where it should go.
pub open spec fn split_draft(
    workspace: WorkspaceModel,
    view: ViewModel,
    outcome: SplitOutcome,
) -> WorkspaceModel {
    split_in(with_scene(workspace, outcome.scene), view, outcome.new_space, outcome.status)
}

/// A view has been added next to a space, with what was said to the builder and what it gave.
pub open spec fn was_split(
    before: WorkspaceModel,
    after: WorkspaceModel,
    said: Seq<Exchange>,
    target: SpaceId,
    view: ViewModel,
    focusable: bool,
    direction: SplitDirection,
    focus_new: bool,
    outcome: SplitOutcome,
) -> bool {
    let draft = split_draft(before, view, outcome);
    let preferred = Some(
        if focus_new {
            outcome.new_space
        } else {
            before.focused
        },
    );
    &&& after.views.dom() == before.views.dom().insert(before.next_view_id)
    &&& outcome.status is Some <==> before.placement is PerPane
    &&& before.placement is PerPane ==> parent_at(before.nodes, target) is Some
    &&& focus_after(draft.nodes, draft.focused, preferred) is Some
    &&& after == settled(draft, preferred, scene_of(after))
    &&& requests_of(said) == seq![split_request(before, target, focusable, direction)]
        + sync_requests(refocused(draft, preferred))
    &&& split_given(said[0]) == Some(outcome)
}

/// A workspace with one view, in the scene and the spaces that a builder gave.
pub open spec fn opened(
    scene: SceneModel,
    editor_space: SpaceId,
    status_space: SpaceId,
    id: u64,
    view: ViewModel,
    next_view_id: u64,
) -> WorkspaceModel {
    let shown = with_pane(
        with_pane(view, editor_space, BODY_PANE@),
        status_space,
        STATUS_PANE@,
    );
    WorkspaceModel {
        nodes: scene.nodes,
        size: scene.size,
        scene_revision: 0,
        views: Map::empty().insert(id, shown),
        next_view_id,
        focused: focus_after(scene.nodes, editor_space, Some(editor_space))->0,
        placement: StatusBarPlacement::Global,
        global_status: Some(status_space),
        status_by_editor: Map::empty(),
    }
}

/// The error says why a view cannot be added, with what was said to the builder for it: the space
/// has nothing around it, the builder refused, or what it gave does not fit.
pub open spec fn split_refuses(
    before: WorkspaceModel,
    target: SpaceId,
    view: ViewModel,
    focusable: bool,
    direction: SplitDirection,
    focus_new: bool,
    said: Seq<Exchange>,
    error: LayoutError,
) -> bool {
    let request = split_request(before, target, focusable, direction);
    if before.placement is PerPane && parent_at(before.nodes, target) is None {
        said.len() == 0 && error == LayoutError::Scene(SceneError::InvalidTree)
    } else {
        ||| stops_at(said, seq![request], error)
        ||| begins(said, seq![request]) && (split_given(said[0]) matches Some(outcome)
            && settle_refuses(
            split_draft(before, view, outcome),
            Some(
                if focus_new {
                    outcome.new_space
                } else {
                    before.focused
                },
            ),
            said.skip(1),
            error,
        ))
    }
}

/// The error says why the focus cannot be elsewhere, with what was said to the builder for it.
pub open spec fn focus_refuses(
    moved: WorkspaceModel,
    said: Seq<Exchange>,
    error: LayoutError,
) -> bool {
    ||| sync_refuses(moved, said, error)
    ||| requests_of(said) == sync_requests(moved) && would_be_unsound(
        revised(synced(moved, scene_after(said, scene_of(moved)))),
        error,
    )
}

/// The error says why a workspace cannot start with the scene that a builder gave.
pub open spec fn open_refuses(
    scene: SceneModel,
    editor_space: SpaceId,
    status_space: SpaceId,
    id: u64,
    view: ViewModel,
    next_view_id: u64,
    error: LayoutError,
) -> bool {
    match focus_after(scene.nodes, editor_space, Some(editor_space)) {
        None => error == LayoutError::NoFocusableSpace,
        Some(_) => would_be_unsound(
            opened(scene, editor_space, status_space, id, view, next_view_id),
            error,
        ),
    }
}

impl<B: SceneBuilder> ViewWorkspace<B> {
    /// A workspace with one view and one status bar.
    pub fn editor(
        builder: B,
        width: usize,
        height: usize,
        editor_id: ViewId,
        editor: View,
        next_view_id: u64,
    ) -> (result: Result<Self, LayoutError>)
        requires
            editor_id.0 < next_view_id,
        ensures
            match result {
                Ok(workspace) => {
                    &&& workspace.valid()
                    &&& workspace.talk() == Seq::<Exchange>::empty()
                    &&& exists|editor_space: SpaceId, status_space: SpaceId|
                        workspace.model() == opened(
                            scene_of(workspace.model()),
                            editor_space,
                            status_space,
                            editor_id.0,
                            editor.model(),
                            next_view_id,
                        ) && #[trigger] builder.opens(
                            width as i32,
                            height as i32,
                            editor_id,
                            scene_of(workspace.model()),
                            editor_space,
                            status_space,
                            workspace.builder(),
                        )
                },
                Err(error) => exists|
                    scene: SceneModel,
                    editor_space: SpaceId,
                    status_space: SpaceId,
                    after: B,
                |
                    open_refuses(
                        scene,
                        editor_space,
                        status_space,
                        editor_id.0,
                        editor.model(),
                        next_view_id,
                        error,
                    ) && #[trigger] builder.opens(
                        width as i32,
                        height as i32,
                        editor_id,
                        scene,
                        editor_space,
                        status_space,
                        after,
                    ),
            },
    {
        let ghost first = builder;
        let mut builder = builder;
        let EditorScene { scene, editor_space, status_space } = builder.editor_scene(
            width as i32,
            height as i32,
            editor_id,
        );
        let ghost given = editor.model();
        let ghost given_scene = scene.model();
        assert(first.opens(
            width as i32,
            height as i32,
            editor_id,
            given_scene,
            editor_space,
            status_space,
            builder,
        ));
        let mut editor = editor;
        editor.assign_pane(editor_space, BODY_PANE);
        editor.assign_pane(status_space, STATUS_PANE);
        let focused = match resolve_focus(&scene, editor_space, Some(editor_space)) {
            Some(space) => space,
            None => {
                return Err(LayoutError::NoFocusableSpace);
            },
        };
        let mut views: HashMap<u64, View> = HashMap::new();
        let ghost shown = editor.model();
        views.insert(editor_id.0, editor);
        let workspace = ViewWorkspace {
            scene,
            scene_builder: builder,
            scene_revision: Revision(0),
            views,
            next_view_id,
            focused,
            status_placement: StatusBarPlacement::Global,
            global_status_space: Some(status_space),
            status_by_editor: HashMap::new(),
            talk: Ghost(Seq::empty()),
        };
        proof {
            let model = opened(
                scene_of(workspace.model()),
                editor_space,
                status_space,
                editor_id.0,
                given,
                next_view_id,
            );
            assert(workspace.model().views =~= model.views);
            assert(workspace.model().status_by_editor =~= model.status_by_editor);
            assert(workspace.model() =~= model);
            assert(scene_of(workspace.model()) == given_scene);
            assert(first.opens(
                width as i32,
                height as i32,
                editor_id,
                scene_of(workspace.model()),
                editor_space,
                status_space,
                workspace.builder(),
            ));
            assert(workspace.talk() == Seq::<Exchange>::empty());
        }
        match workspace.validate() {
            Ok(_) => Ok(workspace),
            Err(error) => Err(error),
        }
    }

    /// Moves the focus, gives the status bar to the view that has it, counts the revision and
    /// looks at the whole.
    pub(crate) fn settle(&mut self, preferred: Option<SpaceId>) -> (result: Result<
        (),
        LayoutError,
    >)
        requires
            views_ready(old(self).model()),
            old(self).model().scene_revision < u64::MAX,
        ensures
            match result {
                Ok(_) => {
                    &&& final(self).valid()
                    &&& final(self).model().views.dom() == old(self).model().views.dom()
                    &&& focus_after(
                        old(self).model().nodes,
                        old(self).model().focused,
                        preferred,
                    ) is Some
                    &&& final(self).model() == settled(
                        old(self).model(),
                        preferred,
                        scene_of(final(self).model()),
                    )
                    &&& requests_of(old(self).said(*final(self))) == sync_requests(
                        refocused(old(self).model(), preferred),
                    )
                },
                Err(error) => settle_refuses(
                    old(self).model(),
                    preferred,
                    old(self).said(*final(self)),
                    error,
                ),
            },
            old(self).went_on(*final(self)),
    {
        match self.reconcile_layout(preferred) {
            Ok(_) => {},
            Err(error) => {
                return Err(error);
            },
        }
        match self.sync_global_status_target() {
            Ok(_) => {},
            Err(error) => {
                return Err(error);
            },
        }
        self.revise();
        match self.validate() {
            Ok(_) => Ok(()),
            Err(error) => {
                proof {
                    lemma_scene_after(*old(self), *self);
                }
                Err(error)
            },
        }
    }

    /// Moves the focus to a space, and tells whether it was elsewhere.
    pub fn focus(&mut self, target: SpaceId) -> (result: Result<bool, LayoutError>)
        requires
            old(self).valid(),
            old(self).model().scene_revision < u64::MAX,
        ensures
            ({
                let before = old(self).model();
                let moved = focused_on(before, target);
                &&& result is Err ==> *final(self) == *old(self)
                &&& if focusable_at(before.nodes, target) != Some(true) {
                    result == Err::<bool, LayoutError>(LayoutError::NoFocusableSpace)
                } else if target == before.focused {
                    result == Ok::<bool, LayoutError>(false) && *final(self) == *old(self)
                } else {
                    &&& sync_requests(moved).len() == 0 ==> result is Ok
                    &&& match result {
                        Ok(changed) => {
                            &&& changed
                            &&& final(self).valid()
                            &&& final(self).model() == revised(
                                synced(moved, scene_of(final(self).model())),
                            )
                            &&& old(self).went_on(*final(self))
                            &&& requests_of(old(self).said(*final(self))) == sync_requests(moved)
                        },
                        Err(error) => exists|said: Seq<Exchange>| #[trigger]
                            old(self).may_say(said) && focus_refuses(moved, said, error),
                    }
                }
            }),
    {
        let focusable = match view_space_focusable(&self.scene, target) {
            Some(focusable) => focusable,
            None => false,
        };
        if !focusable {
            return Err(LayoutError::NoFocusableSpace);
        }
        if target == self.focused {
            return Ok(false);
        }
        let mut draft = self.draft();
        let ghost start = draft;
        draft.focused = target;
        proof {
            assert(start.went_on(draft));
            lemma_nothing_said_yet(*self, draft);
            let moved = focused_on(self.model(), target);
            assert(draft.model() =~= moved);
            if let Some(space) = moved.global_status {
                if moved.placement is Global {
                    let id = choose|id: u64| #[trigger] is_sole_status(moved.views, space, id);
                    law_status_space_shows_its_view(self.model(), id, space);
                }
            }
        }
        let ghost here = draft;
        let result = draft.sync_global_status_target();
        proof {
            lemma_said(*self, here, draft);
            assert(self.said(draft) =~= here.said(draft));
        }
        match result {
            Ok(_) => {},
            Err(error) => {
                assert(focus_refuses(focused_on(self.model(), target), self.said(draft), error));
                return Err(error);
            },
        }
        draft.revise();
        proof {
            let moved = focused_on(self.model(), target);
            if sync_requests(moved).len() == 0 {
                law_free_changes_keep_soundness(self.model(), draft.model());
            }
        }
        match draft.validate() {
            Ok(_) => {},
            Err(error) => {
                proof {
                    lemma_scene_after(*self, draft);
                    assert(focus_refuses(
                        focused_on(self.model(), target),
                        self.said(draft),
                        error,
                    ));
                }
                return Err(error);
            },
        }
        *self = draft;
        Ok(true)
    }

    /// Changes how large a main area is.
    pub fn set_sizing(&mut self, target: SpaceId, sizing: Sizing) -> (result: Result<
        (),
        LayoutError,
    >)
        requires
            old(self).valid(),
            old(self).model().scene_revision < u64::MAX,
        ensures
            match result {
                Ok(_) => {
                    &&& body_refusal(old(self).model(), target) is None
                    &&& final(self).valid()
                    &&& final(self).model() == revised(
                        with_scene(old(self).model(), scene_of(final(self).model())),
                    )
                    &&& old(self).went_on(*final(self))
                    &&& requests_of(old(self).said(*final(self))) == seq![
                        SceneRequest::Size { target, sizing },
                    ]
                },
                Err(error) => {
                    &&& *final(self) == *old(self)
                    &&& match body_refusal(old(self).model(), target) {
                        Some(refusal) => error == refusal,
                        None => exists|said: Seq<Exchange>| #[trigger]
                            old(self).may_say(said) && change_refuses(
                                old(self).model(),
                                SceneRequest::Size { target, sizing },
                                said,
                                error,
                            ),
                    }
                },
            },
    {
        let mut draft = self.draft();
        match draft.reject_non_body_space(target) {
            Ok(_) => {},
            Err(error) => {
                return Err(error);
            },
        }
        let result = draft.scene_size(target, sizing);
        proof {
            lemma_just_said(*self, draft, draft.talk().last());
        }
        match result {
            Ok(_) => {},
            Err(error) => {
                assert(change_refuses(
                    self.model(),
                    SceneRequest::Size { target, sizing },
                    self.said(draft),
                    error,
                ));
                return Err(error);
            },
        }
        draft.revise();
        match draft.validate() {
            Ok(_) => {},
            Err(error) => {
                assert(change_refuses(
                    self.model(),
                    SceneRequest::Size { target, sizing },
                    self.said(draft),
                    error,
                ));
                return Err(error);
            },
        }
        *self = draft;
        Ok(())
    }

    /// Shows a new view next to a main area.
    pub fn split(
        &mut self,
        target: SpaceId,
        view: View,
        focusable: bool,
        direction: SplitDirection,
        focus_new: bool,
    ) -> (result: Result<(ViewId, SplitResult), LayoutError>)
        requires
            old(self).valid(),
            old(self).model().scene_revision < u64::MAX,
            old(self).model().next_view_id < u64::MAX,
        ensures
            match result {
                Ok((id, split)) => {
                    &&& body_refusal(old(self).model(), target) is None
                    &&& id.0 == old(self).model().next_view_id
                    &&& final(self).valid()
                    &&& exists|outcome: SplitOutcome|
                        outcome.new_space == split.new_space && #[trigger] was_split(
                            old(self).model(),
                            final(self).model(),
                            old(self).said(*final(self)),
                            target,
                            view.model(),
                            focusable,
                            direction,
                            focus_new,
                            outcome,
                        )
                    &&& old(self).went_on(*final(self))
                },
                Err(error) => {
                    &&& *final(self) == *old(self)
                    &&& match body_refusal(old(self).model(), target) {
                        Some(refusal) => error == refusal,
                        None => exists|said: Seq<Exchange>| #[trigger]
                            old(self).may_say(said) && split_refuses(
                                old(self).model(),
                                target,
                                view.model(),
                                focusable,
                                direction,
                                focus_new,
                                said,
                                error,
                            ),
                    }
                },
            },
    {
        let ghost before = self.model();
        let ghost given = view.model();
        let ghost request = split_request(before, target, focusable, direction);
        let mut draft = self.draft();
        match draft.reject_non_body_space(target) {
            Ok(_) => {},
            Err(error) => {
                return Err(error);
            },
        }
        let previous = draft.focused;
        let id = ViewId(draft.next_view_id);
        let mut view = view;
        let ghost mut outcome = SplitOutcome {
            scene: scene_of(before),
            new_space: target,
            status: None,
        };
        let new_space = match draft.status_placement {
            StatusBarPlacement::Global => {
                let result = draft.scene_split(target, id, focusable, direction);
                proof {
                    lemma_just_said(*self, draft, draft.talk().last());
                    assert(requests_of(self.said(draft)) =~= seq![request]);
                    assert(seq![request].take(1) =~= seq![request]);
                }
                let split = match result {
                    Ok(split) => split,
                    Err(error) => {
                        assert(split_refuses(
                            before,
                            target,
                            given,
                            focusable,
                            direction,
                            focus_new,
                            self.said(draft),
                            error,
                        ));
                        return Err(error);
                    },
                };
                view.assign_pane(split.new_space, BODY_PANE);
                proof {
                    outcome = SplitOutcome {
                        scene: scene_of(draft.model()),
                        new_space: split.new_space,
                        status: None,
                    };
                }
                split.new_space
            },
            StatusBarPlacement::PerPane => {
                let pane_space = match draft.scene.parent(target) {
                    Some(space) => space,
                    None => {
                        proof {
                            lemma_nothing_said_yet(*self, draft);
                            assert(split_refuses(
                                before,
                                target,
                                given,
                                focusable,
                                direction,
                                focus_new,
                                self.said(draft),
                                LayoutError::Scene(SceneError::InvalidTree),
                            ));
                        }
                        return Err(LayoutError::Scene(SceneError::InvalidTree));
                    },
                };
                let result = draft.scene_split_pane(pane_space, id, focusable, direction);
                proof {
                    lemma_just_said(*self, draft, draft.talk().last());
                    assert(requests_of(self.said(draft)) =~= seq![request]);
                    assert(seq![request].take(1) =~= seq![request]);
                }
                let pane = match result {
                    Ok(pane) => pane,
                    Err(error) => {
                        assert(split_refuses(
                            before,
                            target,
                            given,
                            focusable,
                            direction,
                            focus_new,
                            self.said(draft),
                            error,
                        ));
                        return Err(error);
                    },
                };
                proof {
                    outcome = SplitOutcome {
                        scene: scene_of(draft.model()),
                        new_space: pane.editor_space,
                        status: Some(pane.status_space),
                    };
                }
                view.assign_pane(pane.editor_space, BODY_PANE);
                view.assign_pane(pane.status_space, STATUS_PANE);
                let ghost here = draft.model();
                let ghost indexing = draft;
                draft.status_by_editor.insert(id.0, pane.status_space);
                assert(draft.model() =~= (WorkspaceModel {
                    status_by_editor: here.status_by_editor.insert(id.0, pane.status_space),
                    ..here
                }));
                assert(indexing.went_on(draft));
                pane.editor_space
            },
        };
        draft.add_view(view);
        assert(draft.model() =~= split_draft(before, given, outcome));
        let preferred = if focus_new {
            new_space
        } else {
            previous
        };
        let ghost first = draft;
        let ghost exchange = draft.talk().last();
        assert(split_given(exchange) == Some(outcome));
        let settling = draft.settle(Some(preferred));
        proof {
            lemma_said(*self, first, draft);
            let said = self.said(draft);
            assert(said.take(1) =~= seq![exchange]);
            assert(said.skip(1) =~= first.said(draft));
            assert(requests_of(said.take(1)) =~= seq![request]);
        }
        match settling {
            Ok(_) => {},
            Err(error) => {
                assert(split_refuses(
                    before,
                    target,
                    given,
                    focusable,
                    direction,
                    focus_new,
                    self.said(draft),
                    error,
                ));
                return Err(error);
            },
        }
        proof {
            assert(draft.model().views.dom() =~= before.views.dom().insert(before.next_view_id));
            assert(was_split(
                before,
                draft.model(),
                self.said(draft),
                target,
                given,
                focusable,
                direction,
                focus_new,
                outcome,
            ));
        }
        *self = draft;
        Ok((id, SplitResult { new_space }))
    }
}

} // verus!
