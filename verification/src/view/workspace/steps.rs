//! The steps that changes of a workspace are made of.

use crate::protocol::{Revision, SpaceId, ViewId};
use crate::view::instance::{with_pane, without_pane, View, ViewModel};
use crate::view::layout::{LayoutError, StatusBarPlacement};
use crate::view::panes::STATUS_PANE;
use crate::view::scene::{
    attach_answer, close_answer, focus_after, pane_answer, plain_answer, resolve_focus,
    split_answer, view_at, CloseResult, Exchange, SceneAnswer, SceneBuilder, SceneError, SceneModel,
    SceneRequest, Sizing, SplitDirection, SplitResult, StatusPane,
};
use crate::view::soundness::{scene_of, views_ready, WorkspaceModel};
use crate::view::talk::{refused, requests_of};
use crate::view::workspace::{
    entry_mut, group_talk, lemma_just_said, lemma_one_said, ViewWorkspace,
};
use vstd::prelude::*;
use vstd::view::View as _;

verus! {

broadcast use {vstd::std_specs::hash::group_hash_axioms, group_talk};

/// The workspace with another scene.
pub open spec fn with_scene(workspace: WorkspaceModel, scene: SceneModel) -> WorkspaceModel {
    WorkspaceModel { nodes: scene.nodes, size: scene.size, ..workspace }
}

/// Nothing but the scene is different.
pub open spec fn same_but_scene(before: WorkspaceModel, after: WorkspaceModel) -> bool {
    after == with_scene(before, scene_of(after))
}

/// The workspace with one view changed.
pub open spec fn with_view(workspace: WorkspaceModel, id: u64, view: ViewModel) -> WorkspaceModel {
    WorkspaceModel { views: workspace.views.insert(id, view), ..workspace }
}

/// The workspace with a new view.
pub open spec fn added(workspace: WorkspaceModel, view: ViewModel) -> WorkspaceModel {
    WorkspaceModel {
        views: workspace.views.insert(workspace.next_view_id, view),
        next_view_id: (workspace.next_view_id + 1) as u64,
        ..workspace
    }
}

/// The workspace with the focus where it goes.
pub open spec fn refocused(
    workspace: WorkspaceModel,
    preferred: Option<SpaceId>,
) -> WorkspaceModel {
    match focus_after(workspace.nodes, workspace.focused, preferred) {
        Some(space) => WorkspaceModel { focused: space, ..workspace },
        None => workspace,
    }
}

/// The workspace with the next revision of its scene.
pub open spec fn revised(workspace: WorkspaceModel) -> WorkspaceModel {
    WorkspaceModel { scene_revision: (workspace.scene_revision + 1) as u64, ..workspace }
}

/// The views once a status bar has gone from one to another.
pub open spec fn status_moved(
    views: Map<u64, ViewModel>,
    previous: u64,
    editor: u64,
    space: SpaceId,
) -> Map<u64, ViewModel> {
    let released = if views.contains_key(previous) {
        views.insert(previous, without_pane(views[previous], space))
    } else {
        views
    };
    released.insert(editor, with_pane(released[editor], space, STATUS_PANE@))
}

/// The workspace once its one status bar belongs to the view that has the focus. `scene` is what
/// a builder makes of the scene where the status bar changes hands.
pub open spec fn synced(workspace: WorkspaceModel, scene: SceneModel) -> WorkspaceModel {
    match (workspace.placement, workspace.global_status) {
        (StatusBarPlacement::Global, Some(space)) => match (
            view_at(workspace.nodes, space),
            view_at(workspace.nodes, workspace.focused),
        ) {
            (Some(previous), Some(editor)) => if previous == editor {
                workspace
            } else {
                with_scene(
                    WorkspaceModel {
                        views: status_moved(workspace.views, previous.0, editor.0, space),
                        ..workspace
                    },
                    scene,
                )
            },
            _ => workspace,
        },
        _ => workspace,
    }
}

/// What is asked of a builder for the status bar to belong to the view that has the focus.
pub open spec fn sync_requests(workspace: WorkspaceModel) -> Seq<SceneRequest> {
    match (workspace.placement, workspace.global_status) {
        (StatusBarPlacement::Global, Some(space)) => match (
            view_at(workspace.nodes, space),
            view_at(workspace.nodes, workspace.focused),
        ) {
            (Some(previous), Some(editor)) => if previous == editor {
                Seq::empty()
            } else {
                seq![SceneRequest::Replace { target: space, view: editor, focusable: false }]
            },
            _ => Seq::empty(),
        },
        _ => Seq::empty(),
    }
}

/// The error says why the status bar cannot belong to the view that has the focus, with what was
/// said to the builder for it.
pub open spec fn sync_refuses(
    workspace: WorkspaceModel,
    said: Seq<Exchange>,
    error: LayoutError,
) -> bool {
    &&& workspace.placement is Global
    &&& workspace.global_status matches Some(space) && match (
        view_at(workspace.nodes, workspace.focused),
        view_at(workspace.nodes, space),
    ) {
        (None, _) => said.len() == 0 && error == LayoutError::NoFocusableSpace,
        (Some(_), None) => said.len() == 0 && error == LayoutError::Scene(
            SceneError::ExpectedContentLeaf(space),
        ),
        (Some(editor), Some(previous)) => {
            &&& previous != editor
            &&& requests_of(said) == sync_requests(workspace)
            &&& refused(said, error) || (!workspace.views.contains_key(editor.0) && error
                == LayoutError::MissingView(editor))
        },
    }
}

/// The builder was asked one thing, and answered like that.
pub open spec fn exchanged<B: SceneBuilder>(
    before: ViewWorkspace<B>,
    after: ViewWorkspace<B>,
    request: SceneRequest,
    answer: SceneAnswer,
) -> bool {
    &&& same_but_scene(before.model(), after.model())
    &&& before.went_on(after)
    &&& after.talk() == before.talk().push(
        Exchange {
            request,
            before: scene_of(before.model()),
            after: scene_of(after.model()),
            answer,
        },
    )
}

/// An error of a builder.
pub(crate) fn scene_error<T>(result: Result<T, SceneError>) -> (mapped: Result<T, LayoutError>)
    ensures
        match result {
            Ok(value) => mapped == Ok::<T, LayoutError>(value),
            Err(error) => mapped == Err::<T, LayoutError>(LayoutError::Scene(error)),
        },
{
    match result {
        Ok(value) => Ok(value),
        Err(error) => Err(LayoutError::Scene(error)),
    }
}

impl<B: SceneBuilder> ViewWorkspace<B> {
    /// Has the builder close a space.
    pub(crate) fn scene_close(&mut self, space: SpaceId) -> (result: Result<
        CloseResult,
        LayoutError,
    >)
        ensures
            match result {
                Ok(closed) => exchanged(
                    *old(self),
                    *final(self),
                    SceneRequest::Close { space },
                    SceneAnswer::Closed(closed.surviving_neighbor),
                ),
                Err(error) => error matches LayoutError::Scene(reason) && exchanged(
                    *old(self),
                    *final(self),
                    SceneRequest::Close { space },
                    SceneAnswer::Refused(reason),
                ),
            },
    {
        let result = self.scene_builder.close(&mut self.scene, space);
        proof {
            let exchange = Exchange {
                request: SceneRequest::Close { space },
                before: scene_of(old(self).model()),
                after: scene_of(self.model()),
                answer: close_answer(result),
            };
            self.talk@ = self.talk@.push(exchange);
            assert(self.model() =~= with_scene(old(self).model(), scene_of(self.model())));
            lemma_one_said(*old(self), *self, exchange);
        }
        scene_error(result)
    }

    /// Has the builder split a space.
    pub(crate) fn scene_split(
        &mut self,
        target: SpaceId,
        view: ViewId,
        focusable: bool,
        direction: SplitDirection,
    ) -> (result: Result<SplitResult, LayoutError>)
        ensures
            match result {
                Ok(split) => exchanged(
                    *old(self),
                    *final(self),
                    SceneRequest::Split { target, view, focusable, direction },
                    SceneAnswer::Split(split.new_space),
                ),
                Err(error) => error matches LayoutError::Scene(reason) && exchanged(
                    *old(self),
                    *final(self),
                    SceneRequest::Split { target, view, focusable, direction },
                    SceneAnswer::Refused(reason),
                ),
            },
    {
        let result = self.scene_builder.split(&mut self.scene, target, view, focusable, direction);
        proof {
            let exchange = Exchange {
                request: SceneRequest::Split { target, view, focusable, direction },
                before: scene_of(old(self).model()),
                after: scene_of(self.model()),
                answer: split_answer(result),
            };
            self.talk@ = self.talk@.push(exchange);
            assert(self.model() =~= with_scene(old(self).model(), scene_of(self.model())));
            lemma_one_said(*old(self), *self, exchange);
        }
        scene_error(result)
    }

    /// Has the builder split a pair of a leaf and its status bar.
    pub(crate) fn scene_split_pane(
        &mut self,
        target: SpaceId,
        view: ViewId,
        focusable: bool,
        direction: SplitDirection,
    ) -> (result: Result<StatusPane, LayoutError>)
        ensures
            match result {
                Ok(pane) => exchanged(
                    *old(self),
                    *final(self),
                    SceneRequest::SplitPane { target, view, status: view, focusable, direction },
                    SceneAnswer::Pane(pane),
                ),
                Err(error) => error matches LayoutError::Scene(reason) && exchanged(
                    *old(self),
                    *final(self),
                    SceneRequest::SplitPane { target, view, status: view, focusable, direction },
                    SceneAnswer::Refused(reason),
                ),
            },
    {
        let result = self.scene_builder.split_pane(
            &mut self.scene,
            target,
            view,
            view,
            focusable,
            direction,
        );
        proof {
            let exchange = Exchange {
                request: SceneRequest::SplitPane { target, view, status: view, focusable, direction },
                before: scene_of(old(self).model()),
                after: scene_of(self.model()),
                answer: pane_answer(result),
            };
            self.talk@ = self.talk@.push(exchange);
            assert(self.model() =~= with_scene(old(self).model(), scene_of(self.model())));
            lemma_one_said(*old(self), *self, exchange);
        }
        scene_error(result)
    }

    /// Has the builder put a leaf together with a status bar.
    pub(crate) fn scene_wrap(&mut self, target: SpaceId, view: ViewId) -> (result: Result<
        StatusPane,
        LayoutError,
    >)
        ensures
            match result {
                Ok(pane) => exchanged(
                    *old(self),
                    *final(self),
                    SceneRequest::Wrap { target, view },
                    SceneAnswer::Pane(pane),
                ),
                Err(error) => error matches LayoutError::Scene(reason) && exchanged(
                    *old(self),
                    *final(self),
                    SceneRequest::Wrap { target, view },
                    SceneAnswer::Refused(reason),
                ),
            },
    {
        let result = self.scene_builder.wrap_with_status(&mut self.scene, target, view);
        proof {
            let exchange = Exchange {
                request: SceneRequest::Wrap { target, view },
                before: scene_of(old(self).model()),
                after: scene_of(self.model()),
                answer: pane_answer(result),
            };
            self.talk@ = self.talk@.push(exchange);
            assert(self.model() =~= with_scene(old(self).model(), scene_of(self.model())));
            lemma_one_said(*old(self), *self, exchange);
        }
        scene_error(result)
    }

    /// Has the builder add the one status bar of the scene.
    pub(crate) fn scene_attach(&mut self, view: ViewId) -> (result: Result<SpaceId, LayoutError>)
        ensures
            match result {
                Ok(space) => exchanged(
                    *old(self),
                    *final(self),
                    SceneRequest::Attach { view },
                    SceneAnswer::Attached(space),
                ),
                Err(error) => error matches LayoutError::Scene(reason) && exchanged(
                    *old(self),
                    *final(self),
                    SceneRequest::Attach { view },
                    SceneAnswer::Refused(reason),
                ),
            },
    {
        let result = self.scene_builder.attach_global_status(&mut self.scene, view);
        proof {
            let exchange = Exchange {
                request: SceneRequest::Attach { view },
                before: scene_of(old(self).model()),
                after: scene_of(self.model()),
                answer: attach_answer(result),
            };
            self.talk@ = self.talk@.push(exchange);
            assert(self.model() =~= with_scene(old(self).model(), scene_of(self.model())));
            lemma_one_said(*old(self), *self, exchange);
        }
        scene_error(result)
    }

    /// Has the builder show another view in a leaf.
    pub(crate) fn scene_replace(&mut self, target: SpaceId, view: ViewId, focusable: bool) -> (result:
        Result<(), LayoutError>)
        ensures
            match result {
                Ok(_) => exchanged(
                    *old(self),
                    *final(self),
                    SceneRequest::Replace { target, view, focusable },
                    SceneAnswer::Done,
                ),
                Err(error) => error matches LayoutError::Scene(reason) && exchanged(
                    *old(self),
                    *final(self),
                    SceneRequest::Replace { target, view, focusable },
                    SceneAnswer::Refused(reason),
                ),
            },
    {
        let result = self.scene_builder.replace_view(&mut self.scene, target, view, focusable);
        proof {
            let exchange = Exchange {
                request: SceneRequest::Replace { target, view, focusable },
                before: scene_of(old(self).model()),
                after: scene_of(self.model()),
                answer: plain_answer(result),
            };
            self.talk@ = self.talk@.push(exchange);
            assert(self.model() =~= with_scene(old(self).model(), scene_of(self.model())));
            lemma_one_said(*old(self), *self, exchange);
        }
        scene_error(result)
    }

    /// Has the builder change how large a space is.
    pub(crate) fn scene_size(&mut self, target: SpaceId, sizing: Sizing) -> (result: Result<
        (),
        LayoutError,
    >)
        ensures
            match result {
                Ok(_) => exchanged(
                    *old(self),
                    *final(self),
                    SceneRequest::Size { target, sizing },
                    SceneAnswer::Done,
                ),
                Err(error) => error matches LayoutError::Scene(reason) && exchanged(
                    *old(self),
                    *final(self),
                    SceneRequest::Size { target, sizing },
                    SceneAnswer::Refused(reason),
                ),
            },
    {
        let result = self.scene_builder.set_sizing(&mut self.scene, target, sizing);
        proof {
            let exchange = Exchange {
                request: SceneRequest::Size { target, sizing },
                before: scene_of(old(self).model()),
                after: scene_of(self.model()),
                answer: plain_answer(result),
            };
            self.talk@ = self.talk@.push(exchange);
            assert(self.model() =~= with_scene(old(self).model(), scene_of(self.model())));
            lemma_one_said(*old(self), *self, exchange);
        }
        scene_error(result)
    }

    /// Lets a view use a space for something.
    pub(crate) fn assign(&mut self, view: ViewId, space: SpaceId, key: &str) -> (result: Result<
        (),
        LayoutError,
    >)
        requires
            views_ready(old(self).model()),
        ensures
            final(self).talk() == old(self).talk(),
            old(self).went_on(*final(self)),
            views_ready(final(self).model()),
            match result {
                Ok(_) => {
                    &&& old(self).model().views.contains_key(view.0)
                    &&& final(self).model() == with_view(
                        old(self).model(),
                        view.0,
                        with_pane(old(self).model().views[view.0], space, key@),
                    )
                },
                Err(error) => {
                    &&& !old(self).model().views.contains_key(view.0)
                    &&& error == LayoutError::MissingView(view)
                    &&& final(self).model() == old(self).model()
                },
            },
    {
        let ghost before = self.model();
        match entry_mut(&mut self.views, view.0) {
            Some(data) => {
                data.assign_pane(space, key);
            },
            None => {
                assert(self.model() =~= before);
                return Err(LayoutError::MissingView(view));
            },
        }
        let ghost after = with_view(
            before,
            view.0,
            with_pane(before.views[view.0], space, key@),
        );
        assert(self.model().views =~= after.views);
        assert(self.model() =~= after);
        Ok(())
    }

    /// Has a view give up a space, where the view is there.
    pub(crate) fn release(&mut self, view: ViewId, space: SpaceId) -> (there: bool)
        requires
            views_ready(old(self).model()),
        ensures
            final(self).talk() == old(self).talk(),
            old(self).went_on(*final(self)),
            views_ready(final(self).model()),
            there == old(self).model().views.contains_key(view.0),
            final(self).model() == if there {
                with_view(
                    old(self).model(),
                    view.0,
                    without_pane(old(self).model().views[view.0], space),
                )
            } else {
                old(self).model()
            },
    {
        let ghost before = self.model();
        match entry_mut(&mut self.views, view.0) {
            Some(data) => {
                data.release_pane_space(space);
            },
            None => {
                assert(self.model() =~= before);
                return false;
            },
        }
        let ghost after = with_view(before, view.0, without_pane(before.views[view.0], space));
        assert(self.model().views =~= after.views);
        assert(self.model() =~= after);
        true
    }

    /// Takes up a new view under an identity of its own.
    pub(crate) fn add_view(&mut self, view: View) -> (id: ViewId)
        requires
            views_ready(old(self).model()),
            old(self).model().next_view_id < u64::MAX,
        ensures
            final(self).talk() == old(self).talk(),
            old(self).went_on(*final(self)),
            id.0 == old(self).model().next_view_id,
            views_ready(final(self).model()),
            final(self).model() == added(old(self).model(), view.model()),
    {
        let ghost before = self.model();
        view.sound();
        let ghost model = view.model();
        let id = ViewId(self.next_view_id);
        self.next_view_id = self.next_view_id + 1;
        self.views.insert(id.0, view);
        assert(self.model().views =~= added(before, model).views);
        assert(self.model() =~= added(before, model));
        assert(self.views@.dom().finite());
        id
    }

    /// Moves the focus to where it goes.
    pub(crate) fn reconcile_layout(&mut self, preferred: Option<SpaceId>) -> (result: Result<
        (),
        LayoutError,
    >)
        ensures
            final(self).talk() == old(self).talk(),
            old(self).went_on(*final(self)),
            match result {
                Ok(_) => focus_after(
                    old(self).model().nodes,
                    old(self).model().focused,
                    preferred,
                ) is Some,
                Err(error) => error == LayoutError::NoFocusableSpace && focus_after(
                    old(self).model().nodes,
                    old(self).model().focused,
                    preferred,
                ) is None,
            },
            final(self).model() == refocused(old(self).model(), preferred),
    {
        match resolve_focus(&self.scene, self.focused, preferred) {
            Some(space) => {
                self.focused = space;
                assert(self.model() =~= refocused(old(self).model(), preferred));
                Ok(())
            },
            None => Err(LayoutError::NoFocusableSpace),
        }
    }

    /// Gives a status bar to another view.
    pub(crate) fn retarget_status_space(&mut self, space: SpaceId, editor: ViewId) -> (result:
        Result<(), LayoutError>)
        requires
            views_ready(old(self).model()),
        ensures
            result is Ok ==> final(self).model().views.dom() == old(self).model().views.dom(),
            old(self).went_on(*final(self)),
            result is Ok ==> requests_of(old(self).said(*final(self))) == if view_at(
                old(self).model().nodes,
                space,
            ) == Some(editor) {
                Seq::empty()
            } else {
                seq![SceneRequest::Replace { target: space, view: editor, focusable: false }]
            },
            views_ready(final(self).model()),
            match result {
                Ok(_) => match view_at(old(self).model().nodes, space) {
                    Some(previous) => if previous == editor {
                        final(self).model() == old(self).model()
                    } else {
                        &&& old(self).model().views.contains_key(editor.0)
                        &&& final(self).model() == with_scene(
                            WorkspaceModel {
                                views: status_moved(
                                    old(self).model().views,
                                    previous.0,
                                    editor.0,
                                    space,
                                ),
                                ..old(self).model()
                            },
                            scene_of(final(self).model()),
                        )
                    },
                    None => false,
                },
                Err(error) => match view_at(old(self).model().nodes, space) {
                    None => old(self).said(*final(self)).len() == 0 && error == LayoutError::Scene(
                        SceneError::ExpectedContentLeaf(space),
                    ),
                    Some(previous) => {
                        let said = old(self).said(*final(self));
                        &&& previous != editor
                        &&& requests_of(said) == seq![
                            SceneRequest::Replace { target: space, view: editor, focusable: false },
                        ]
                        &&& refused(said, error) || (error == LayoutError::MissingView(editor)
                            && !old(self).model().views.contains_key(editor.0))
                    },
                },
            },
    {
        let ghost before = self.model();
        let previous = match self.view_for_space(space) {
            Some(previous) => previous,
            None => {
                return Err(LayoutError::Scene(SceneError::ExpectedContentLeaf(space)));
            },
        };
        if previous == editor {
            return Ok(());
        }
        let result = self.scene_replace(space, editor, false);
        proof {
            lemma_just_said(*old(self), *self, self.talk().last());
        }
        match result {
            Ok(_) => {},
            Err(error) => {
                return Err(error);
            },
        }
        self.release(previous, space);
        match self.assign(editor, space, STATUS_PANE) {
            Ok(_) => {},
            Err(error) => {
                return Err(error);
            },
        }
        proof {
            let views = status_moved(before.views, previous.0, editor.0, space);
            assert(self.model().views =~= views);
            assert(views.dom() =~= before.views.dom());
            let after = with_scene(
                WorkspaceModel { views, ..before },
                scene_of(self.model()),
            );
            assert(self.model() =~= after);
        }
        Ok(())
    }

    /// Gives the one status bar to the view that has the focus.
    pub(crate) fn sync_global_status_target(&mut self) -> (result: Result<(), LayoutError>)
        requires
            views_ready(old(self).model()),
        ensures
            views_ready(final(self).model()),
            old(self).went_on(*final(self)),
            match result {
                Ok(_) => {
                    &&& final(self).model().views.dom() == old(self).model().views.dom()
                    &&& final(self).model() == synced(
                        old(self).model(),
                        scene_of(final(self).model()),
                    )
                    &&& requests_of(old(self).said(*final(self))) == sync_requests(
                        old(self).model(),
                    )
                },
                Err(error) => sync_refuses(
                    old(self).model(),
                    old(self).said(*final(self)),
                    error,
                ),
            },
    {
        if self.status_placement != StatusBarPlacement::Global {
            assert(requests_of(old(self).said(*self)) =~= sync_requests(old(self).model()));
            return Ok(());
        }
        let space = match self.global_status_space {
            Some(space) => space,
            None => {
                assert(requests_of(old(self).said(*self)) =~= sync_requests(old(self).model()));
                return Ok(());
            },
        };
        let editor = match self.view_for_space(self.focused) {
            Some(editor) => editor,
            None => {
                return Err(LayoutError::NoFocusableSpace);
            },
        };
        self.retarget_status_space(space, editor)
    }

    /// Counts the next revision of the scene.
    pub(crate) fn revise(&mut self)
        requires
            old(self).model().scene_revision < u64::MAX,
        ensures
            final(self).talk() == old(self).talk(),
            final(self).builder() == old(self).builder(),
            old(self).went_on(*final(self)),
            final(self).model() == revised(old(self).model()),
    {
        self.scene_revision = Revision(self.scene_revision.0 + 1);
        assert(self.model() =~= revised(old(self).model()));
    }
}

} // verus!
