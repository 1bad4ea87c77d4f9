//! Where status bars are shown.

use crate::protocol::{SpaceId, ViewId};
use crate::view::instance::{with_pane, without_pane, ViewModel};
use crate::view::layout::{LayoutError, StatusBarPlacement};
use crate::view::panes::{key_for, BODY_PANE, STATUS_PANE};
use crate::view::scene::{
    focus_after, leaves, scene_views, view_at, Exchange, Leaf, SceneAnswer, SceneBuilder,
    SceneError, SceneModel, SceneRequest, Sizing,
};
use crate::view::soundness::{
    is_sole_status, law_status_space_shows_its_view, scene_of, views_ready, WorkspaceModel,
};
use crate::view::talk::{requests_of, stops_at};
use crate::view::workspace::changes::change_refuses;
use crate::view::workspace::closing::close_requests;
use crate::view::workspace::family::would_be_unsound;
use crate::view::workspace::queries::lemma_shown_view_is_there;
use crate::view::workspace::steps::{refocused, revised, with_scene, with_view};
use crate::view::workspace::{
    group_talk, lemma_just_said, lemma_nothing_said_yet, lemma_said, lemma_scene_after, rising,
    sorted_keys, ViewWorkspace,
};
use std::collections::HashMap;
use vstd::prelude::*;
use vstd::view::View as _;

verus! {

broadcast use {vstd::std_specs::hash::group_hash_axioms, group_talk};

/// The status bar that the workspace has for a view: the one of all views, or its own.
pub open spec fn chosen_status(workspace: WorkspaceModel, editor: Option<ViewId>) -> Option<
    SpaceId,
> {
    match (workspace.placement, editor) {
        (StatusBarPlacement::Global, _) => workspace.global_status,
        (StatusBarPlacement::PerPane, Some(editor)) => if workspace.status_by_editor.contains_key(
            editor.0,
        ) {
            Some(workspace.status_by_editor[editor.0])
        } else {
            None
        },
        (StatusBarPlacement::PerPane, None) => None,
    }
}

/// How large a status bar is.
pub open spec fn status_sizing(visible: bool) -> Sizing {
    if visible {
        Sizing::Fixed(1)
    } else {
        Sizing::Fixed(0)
    }
}

/// The leaves that are main areas of their views.
pub open spec fn body_leaves(views: Map<u64, ViewModel>, list: Seq<Leaf>) -> Seq<Leaf>
    decreases list.len(),
{
    if list.len() == 0 {
        Seq::empty()
    } else {
        let rest = body_leaves(views, list.drop_last());
        if key_for(views[list.last().view.0].panes, list.last().space) == Some(BODY_PANE@) {
            rest.push(list.last())
        } else {
            rest
        }
    }
}

/// The workspace once each of the leaves has got a status bar.
pub open spec fn with_bars(
    workspace: WorkspaceModel,
    editors: Seq<Leaf>,
    spaces: Seq<SpaceId>,
) -> WorkspaceModel
    decreases editors.len(),
{
    if editors.len() == 0 {
        workspace
    } else {
        let rest = with_bars(workspace, editors.drop_last(), spaces.drop_last());
        let view = editors.last().view.0;
        let shown = with_view(
            rest,
            view,
            with_pane(rest.views[view], spaces.last(), STATUS_PANE@),
        );
        WorkspaceModel {
            status_by_editor: rest.status_by_editor.insert(view, spaces.last()),
            ..shown
        }
    }
}

/// What is asked of a builder for each of the leaves to get a status bar.
pub open spec fn wrap_requests(editors: Seq<Leaf>) -> Seq<SceneRequest> {
    editors.map_values(|leaf: Leaf| SceneRequest::Wrap { target: leaf.space, view: leaf.view })
}

/// What a builder gave for every view to have a status bar of its own: the scene without the one
/// status bar, then a status bar for each main area, and the scene with those.
pub struct SpreadOutcome {
    pub closed: SceneModel,
    pub spaces: Seq<SpaceId>,
    pub scene: SceneModel,
}

/// The workspace without its one status bar.
pub open spec fn bar_closed(workspace: WorkspaceModel, scene: SceneModel) -> WorkspaceModel {
    let space = workspace.global_status->0;
    let view = view_at(workspace.nodes, space)->0;
    WorkspaceModel {
        views: workspace.views.insert(view.0, without_pane(workspace.views[view.0], space)),
        global_status: None,
        status_by_editor: Map::empty(),
        ..with_scene(workspace, scene)
    }
}

/// The main areas that get a status bar of their own.
pub open spec fn spread_editors(workspace: WorkspaceModel, outcome: SpreadOutcome) -> Seq<Leaf> {
    let closed = bar_closed(workspace, outcome.closed);
    body_leaves(closed.views, leaves(closed.nodes))
}

/// The workspace in which every view has a status bar of its own.
pub open spec fn spread(workspace: WorkspaceModel, outcome: SpreadOutcome) -> WorkspaceModel {
    let closed = bar_closed(workspace, outcome.closed);
    WorkspaceModel {
        placement: StatusBarPlacement::PerPane,
        ..with_scene(
            with_bars(closed, spread_editors(workspace, outcome), outcome.spaces),
            outcome.scene,
        )
    }
}

/// The workspace once views have given up their status bars.
pub open spec fn without_bars(
    workspace: WorkspaceModel,
    index: Map<u64, SpaceId>,
    editors: Seq<u64>,
) -> WorkspaceModel
    decreases editors.len(),
{
    if editors.len() == 0 {
        workspace
    } else {
        let rest = without_bars(workspace, index, editors.drop_last());
        let editor = editors.last();
        if rest.views.contains_key(editor) {
            with_view(rest, editor, without_pane(rest.views[editor], index[editor]))
        } else {
            rest
        }
    }
}

/// The status bars of views.
pub open spec fn bars_of(index: Map<u64, SpaceId>, editors: Seq<u64>) -> Seq<SpaceId> {
    editors.map_values(|editor: u64| index[editor])
}

/// What a builder gave for one status bar in the place of many.
pub struct GatherOutcome {
    pub editors: Seq<u64>,
    pub space: SpaceId,
    pub scene: SceneModel,
}

/// The workspace with one status bar, which belongs to the view that has the focus.
pub open spec fn gathered(workspace: WorkspaceModel, outcome: GatherOutcome) -> WorkspaceModel {
    let view = view_at(workspace.nodes, workspace.focused)->0;
    let index = workspace.status_by_editor;
    let emptied = WorkspaceModel { status_by_editor: Map::empty(), ..workspace };
    let closed = without_bars(emptied, index, outcome.editors);
    WorkspaceModel {
        placement: StatusBarPlacement::Global,
        global_status: Some(outcome.space),
        ..with_scene(
            with_view(
                closed,
                view.0,
                with_pane(closed.views[view.0], outcome.space, STATUS_PANE@),
            ),
            outcome.scene,
        )
    }
}

/// What is asked of a builder for every view to have a status bar of its own.
pub open spec fn spread_requests(
    before: WorkspaceModel,
    outcome: SpreadOutcome,
) -> Seq<SceneRequest> {
    seq![SceneRequest::Close { space: before.global_status->0 }] + wrap_requests(
        spread_editors(before, outcome),
    )
}

/// A builder gave a status bar.
pub open spec fn gave_bar(exchange: Exchange, space: SpaceId) -> bool {
    exchange.answer matches SceneAnswer::Pane(pane) && pane.status_space == space
}

/// What was said for every view to have a status bar of its own, and what the builder gave.
pub open spec fn spread_said(
    before: WorkspaceModel,
    said: Seq<Exchange>,
    outcome: SpreadOutcome,
) -> bool {
    let editors = spread_editors(before, outcome);
    &&& requests_of(said) == spread_requests(before, outcome)
    &&& said[0].after == outcome.closed
    &&& said.last().after == outcome.scene
    &&& outcome.spaces.len() == editors.len()
    &&& forall|i: int|
        0 <= i < editors.len() ==> gave_bar(#[trigger] said[i + 1], outcome.spaces[i])
    &&& forall|i: int|
        0 <= i < editors.len() ==> bar_closed(before, outcome.closed).views.contains_key(
            (#[trigger] editors[i]).view.0,
        )
}

/// Every view has got a status bar of its own.
pub open spec fn was_spread(
    before: WorkspaceModel,
    after: WorkspaceModel,
    said: Seq<Exchange>,
    outcome: SpreadOutcome,
) -> bool {
    &&& spread_said(before, said, outcome)
    &&& focus_after(
        spread(before, outcome).nodes,
        spread(before, outcome).focused,
        Some(before.focused),
    ) is Some
    &&& after == refocused(spread(before, outcome), Some(before.focused))
}

/// What is asked of a builder for one status bar in the place of many.
pub open spec fn gather_requests(
    before: WorkspaceModel,
    outcome: GatherOutcome,
) -> Seq<SceneRequest> {
    close_requests(bars_of(before.status_by_editor, outcome.editors)).push(
        SceneRequest::Attach { view: view_at(before.nodes, before.focused)->0 },
    )
}

/// The views are those that have a status bar, the smallest number first.
pub open spec fn lists_editors(before: WorkspaceModel, outcome: GatherOutcome) -> bool {
    &&& rising(outcome.editors)
    &&& forall|editor: u64|
        outcome.editors.contains(editor) <==> #[trigger] before.status_by_editor.contains_key(
            editor,
        )
}

/// What was said for one status bar in the place of many, and what the builder gave.
pub open spec fn gather_said(
    before: WorkspaceModel,
    said: Seq<Exchange>,
    outcome: GatherOutcome,
) -> bool {
    &&& lists_editors(before, outcome)
    &&& requests_of(said) == gather_requests(before, outcome)
    &&& said.last().answer == SceneAnswer::Attached(outcome.space)
    &&& said.last().after == outcome.scene
}

/// One status bar has come in the place of many.
pub open spec fn was_gathered(
    before: WorkspaceModel,
    after: WorkspaceModel,
    said: Seq<Exchange>,
    outcome: GatherOutcome,
) -> bool {
    &&& gather_said(before, said, outcome)
    &&& focus_after(
        gathered(before, outcome).nodes,
        gathered(before, outcome).focused,
        Some(before.focused),
    ) is Some
    &&& after == refocused(gathered(before, outcome), Some(before.focused))
}

/// Status bars are shown elsewhere than before.
pub open spec fn was_placed(
    before: WorkspaceModel,
    after: WorkspaceModel,
    said: Seq<Exchange>,
    placement: StatusBarPlacement,
) -> bool {
    match placement {
        StatusBarPlacement::PerPane => exists|outcome: SpreadOutcome| #[trigger]
            was_spread(before, after, said, outcome),
        StatusBarPlacement::Global => exists|outcome: GatherOutcome| #[trigger]
            was_gathered(before, after, said, outcome),
    }
}

/// A leaf of the workspace shows a view that is not there.
pub open spec fn leaf_missing(workspace: WorkspaceModel, error: LayoutError) -> bool {
    exists|i: int|
        0 <= i < leaves(workspace.nodes).len() && !workspace.views.contains_key(
            (#[trigger] leaves(workspace.nodes)[i]).view.0,
        ) && error == LayoutError::MissingView(leaves(workspace.nodes)[i].view)
}

/// The error says why status bars cannot be shown elsewhere: the focus has nowhere to go, or what
/// comes out is not in order.
pub open spec fn place_refuses(
    workspace: WorkspaceModel,
    focused: SpaceId,
    error: LayoutError,
) -> bool {
    match focus_after(workspace.nodes, workspace.focused, Some(focused)) {
        None => error == LayoutError::NoFocusableSpace,
        Some(_) => would_be_unsound(revised(refocused(workspace, Some(focused))), error),
    }
}

/// The error says why not every view can have a status bar of its own, with what was said to the
/// builder for it: the builder refused, or what it gave does not fit.
pub open spec fn spread_refuses(
    before: WorkspaceModel,
    said: Seq<Exchange>,
    outcome: SpreadOutcome,
    error: LayoutError,
) -> bool {
    let first = seq![SceneRequest::Close { space: before.global_status->0 }];
    ||| stops_at(said, first, error)
    ||| requests_of(said) == first && leaf_missing(bar_closed(before, said[0].after), error)
    ||| said.len() > 0 && said[0].after == outcome.closed && stops_at(
        said,
        spread_requests(before, outcome),
        error,
    )
    ||| spread_said(before, said, outcome) && place_refuses(
        spread(before, outcome),
        before.focused,
        error,
    )
}

/// The error says why there cannot be one status bar, with what was said to the builder for it:
/// the builder refused, or what it gave does not fit.
pub open spec fn gather_refuses(
    before: WorkspaceModel,
    said: Seq<Exchange>,
    outcome: GatherOutcome,
    error: LayoutError,
) -> bool {
    ||| lists_editors(before, outcome) && stops_at(said, gather_requests(before, outcome), error)
    ||| gather_said(before, said, outcome) && place_refuses(
        gathered(before, outcome),
        before.focused,
        error,
    )
}

/// The error says why status bars cannot be shown elsewhere, with what was said to the builder
/// for it.
pub open spec fn cannot_place(
    before: WorkspaceModel,
    placement: StatusBarPlacement,
    said: Seq<Exchange>,
    error: LayoutError,
) -> bool {
    match placement {
        StatusBarPlacement::PerPane => exists|outcome: SpreadOutcome| #[trigger]
            spread_refuses(before, said, outcome, error),
        StatusBarPlacement::Global => exists|outcome: GatherOutcome| #[trigger]
            gather_refuses(before, said, outcome, error),
    }
}

impl<B: SceneBuilder> ViewWorkspace<B> {
    /// Shows or hides a status bar.
    pub fn set_status_bar_visible(&mut self, editor: Option<ViewId>, visible: bool) -> (result:
        Result<(), LayoutError>)
        requires
            old(self).valid(),
            old(self).model().scene_revision < u64::MAX,
        ensures
            match chosen_status(old(self).model(), editor) {
                None => result == Err::<(), LayoutError>(LayoutError::NoStatusBar) && *final(self)
                    == *old(self),
                Some(space) => match result {
                    Ok(_) => {
                        &&& final(self).valid()
                        &&& final(self).model() == revised(
                            with_scene(old(self).model(), scene_of(final(self).model())),
                        )
                        &&& old(self).went_on(*final(self))
                        &&& requests_of(old(self).said(*final(self))) == seq![
                            SceneRequest::Size { target: space, sizing: status_sizing(visible) },
                        ]
                    },
                    Err(error) => {
                        &&& *final(self) == *old(self)
                        &&& exists|said: Seq<Exchange>| #[trigger]
                            old(self).may_say(said) && change_refuses(
                                old(self).model(),
                                SceneRequest::Size {
                                    target: space,
                                    sizing: status_sizing(visible),
                                },
                                said,
                                error,
                            )
                    },
                },
            },
    {
        let mut draft = self.draft();
        let chosen = match draft.status_placement {
            StatusBarPlacement::Global => draft.global_status_space,
            StatusBarPlacement::PerPane => match editor {
                Some(editor) => match draft.status_by_editor.get(&editor.0) {
                    Some(space) => Some(*space),
                    None => None,
                },
                None => None,
            },
        };
        let space = match chosen {
            Some(space) => space,
            None => {
                return Err(LayoutError::NoStatusBar);
            },
        };
        let sizing = if visible {
            Sizing::Fixed(1)
        } else {
            Sizing::Fixed(0)
        };
        let ghost request = SceneRequest::Size { target: space, sizing: status_sizing(visible) };
        let result = draft.scene_size(space, sizing);
        proof {
            lemma_just_said(*self, draft, draft.talk().last());
        }
        match result {
            Ok(_) => {},
            Err(error) => {
                assert(change_refuses(self.model(), request, self.said(draft), error));
                return Err(error);
            },
        }
        draft.revise();
        match draft.validate() {
            Ok(_) => {},
            Err(error) => {
                assert(change_refuses(self.model(), request, self.said(draft), error));
                return Err(error);
            },
        }
        *self = draft;
        Ok(())
    }

    /// Shows status bars elsewhere.
    pub fn set_status_bar_placement(&mut self, placement: StatusBarPlacement) -> (result: Result<
        (),
        LayoutError,
    >)
        requires
            old(self).valid(),
            old(self).model().scene_revision < u64::MAX,
        ensures
            if placement == old(self).model().placement {
                result is Ok && *final(self) == *old(self)
            } else {
                match result {
                    Ok(_) => {
                        &&& final(self).valid()
                        &&& final(self).model().placement == placement
                        &&& exists|placed: WorkspaceModel|
                            final(self).model() == revised(placed) && #[trigger] was_placed(
                                old(self).model(),
                                placed,
                                old(self).said(*final(self)),
                                placement,
                            )
                        &&& old(self).went_on(*final(self))
                    },
                    Err(error) => {
                        &&& *final(self) == *old(self)
                        &&& exists|said: Seq<Exchange>| #[trigger]
                            old(self).may_say(said) && cannot_place(
                                old(self).model(),
                                placement,
                                said,
                                error,
                            )
                    },
                }
            },
    {
        if placement == self.status_placement {
            return Ok(());
        }
        let mut draft = self.draft();
        let ghost start = draft;
        let result = draft.set_status_bar_placement_in_place(placement);
        proof {
            lemma_nothing_said_yet(*self, start);
            lemma_said(*self, start, draft);
            assert(self.said(draft) =~= start.said(draft));
        }
        match result {
            Ok(_) => {},
            Err(error) => {
                assert(cannot_place(self.model(), placement, self.said(draft), error));
                return Err(error);
            },
        }
        let ghost placed = draft.model();
        draft.revise();
        match draft.validate() {
            Ok(_) => {},
            Err(error) => {
                proof {
                    let before = self.model();
                    let said = self.said(draft);
                    match placement {
                        StatusBarPlacement::PerPane => {
                            let outcome = choose|outcome: SpreadOutcome| #[trigger]
                                was_spread(before, placed, said, outcome);
                            assert(spread_refuses(before, said, outcome, error));
                        },
                        StatusBarPlacement::Global => {
                            let outcome = choose|outcome: GatherOutcome| #[trigger]
                                was_gathered(before, placed, said, outcome);
                            assert(gather_refuses(before, said, outcome, error));
                        },
                    }
                    assert(cannot_place(before, placement, said, error));
                }
                return Err(error);
            },
        }
        assert(was_placed(
            self.model(),
            placed,
            self.said(draft),
            placement,
        ));
        *self = draft;
        Ok(())
    }

    /// Shows status bars elsewhere, without a look at the whole.
    pub(crate) fn set_status_bar_placement_in_place(&mut self, placement: StatusBarPlacement) -> (result:
        Result<(), LayoutError>)
        requires
            old(self).valid(),
            placement != old(self).model().placement,
        ensures
            match result {
                Ok(_) => {
                    &&& views_ready(final(self).model())
                    &&& final(self).model().placement == placement
                    &&& final(self).model().scene_revision == old(self).model().scene_revision
                    &&& was_placed(
                        old(self).model(),
                        final(self).model(),
                        old(self).said(*final(self)),
                        placement,
                    )
                },
                Err(error) => cannot_place(
                    old(self).model(),
                    placement,
                    old(self).said(*final(self)),
                    error,
                ),
            },
            old(self).went_on(*final(self)),
    {
        let focused = self.focused;
        match placement {
            StatusBarPlacement::PerPane => match self.spread_status_bars() {
                Ok(_) => {},
                Err(error) => {
                    return Err(error);
                },
            },
            StatusBarPlacement::Global => match self.gather_status_bars() {
                Ok(_) => {},
                Err(error) => {
                    return Err(error);
                },
            },
        }
        let ghost middle = self.model();
        match self.reconcile_layout(Some(focused)) {
            Ok(_) => {},
            Err(error) => {
                proof {
                    let before = old(self).model();
                    let said = old(self).said(*self);
                    match placement {
                        StatusBarPlacement::PerPane => {
                            let outcome = choose|outcome: SpreadOutcome| #[trigger]
                                spread_as(before, middle, said, outcome);
                            assert(spread_refuses(before, said, outcome, error));
                        },
                        StatusBarPlacement::Global => {
                            let outcome = choose|outcome: GatherOutcome| #[trigger]
                                gathered_as(before, middle, said, outcome);
                            assert(gather_refuses(before, said, outcome, error));
                        },
                    }
                }
                return Err(error);
            },
        }
        proof {
            let before = old(self).model();
            let said = old(self).said(*self);
            match placement {
                StatusBarPlacement::PerPane => {
                    let outcome = choose|outcome: SpreadOutcome| #[trigger]
                        spread_as(before, middle, said, outcome);
                    assert(was_spread(before, self.model(), said, outcome));
                },
                StatusBarPlacement::Global => {
                    let outcome = choose|outcome: GatherOutcome| #[trigger]
                        gathered_as(before, middle, said, outcome);
                    assert(was_gathered(before, self.model(), said, outcome));
                },
            }
        }
        Ok(())
    }

    /// Gives every view a status bar of its own.
    fn spread_status_bars(&mut self) -> (result: Result<(), LayoutError>)
        requires
            old(self).valid(),
            old(self).model().placement is Global,
        ensures
            match result {
                Ok(_) => {
                    &&& views_ready(final(self).model())
                    &&& exists|outcome: SpreadOutcome| #[trigger]
                        spread_as(
                            old(self).model(),
                            final(self).model(),
                            old(self).said(*final(self)),
                            outcome,
                        )
                },
                Err(error) => cannot_place(
                    old(self).model(),
                    StatusBarPlacement::PerPane,
                    old(self).said(*final(self)),
                    error,
                ),
            },
            old(self).went_on(*final(self)),
    {
        let ghost before = self.model();
        let ghost start = *self;
        let global_space = match self.global_status_space {
            Some(space) => space,
            None => {
                assert(false);
                return Err(LayoutError::NoStatusBar);
            },
        };
        proof {
            let id = choose|id: u64| #[trigger] is_sole_status(before.views, global_space, id);
            law_status_space_shows_its_view(before, id, global_space);
        }
        let global_target = match self.view_for_space(global_space) {
            Some(view) => view,
            None => {
                return Err(LayoutError::Scene(SceneError::ExpectedContentLeaf(global_space)));
            },
        };
        let result = self.scene_close(global_space);
        let ghost closed_scene = scene_of(self.model());
        let ghost first = seq![SceneRequest::Close { space: global_space }];
        proof {
            lemma_just_said(start, *self, self.talk().last());
        }
        match result {
            Ok(_) => {},
            Err(error) => {
                proof {
                    let outcome = SpreadOutcome {
                        closed: closed_scene,
                        spaces: Seq::empty(),
                        scene: closed_scene,
                    };
                    assert(first.take(1) =~= first);
                    assert(spread_refuses(before, start.said(*self), outcome, error));
                }
                return Err(error);
            },
        }
        self.release(global_target, global_space);
        let ghost released = *self;
        self.global_status_space = None;
        self.status_by_editor = HashMap::new();
        assert(released.went_on(*self));
        let ghost closed = bar_closed(before, closed_scene);
        assert(self.model().status_by_editor =~= Map::empty());
        assert(self.model() =~= closed);
        let editors = match self.body_spaces() {
            Ok(editors) => editors,
            Err(error) => {
                proof {
                    let outcome = SpreadOutcome {
                        closed: closed_scene,
                        spaces: Seq::empty(),
                        scene: closed_scene,
                    };
                    assert(spread_refuses(before, start.said(*self), outcome, error));
                }
                return Err(error);
            },
        };
        let ghost mut spaces: Seq<SpaceId> = Seq::empty();
        let mut i: usize = 0;
        assert(with_bars(closed, editors@.take(0), spaces) == closed);
        assert(wrap_requests(editors@.take(0)) =~= Seq::empty());
        assert(requests_of(start.said(*self)) =~= first + wrap_requests(editors@.take(0)));
        while i < editors.len()
            invariant
                i <= editors.len(),
                spaces.len() == i,
                views_ready(self.model()),
                self.model().views.dom() == closed.views.dom(),
                forall|j: int|
                    0 <= j < editors@.len() ==> closed.views.contains_key(
                        (#[trigger] editors@[j]).view.0,
                    ),
                self.model().scene_revision == before.scene_revision,
                self.model() == with_scene(
                    with_bars(closed, editors@.take(i as int), spaces),
                    scene_of(self.model()),
                ),
                first == seq![SceneRequest::Close { space: global_space }],
                global_space == before.global_status->0,
                start == *old(self),
                before == start.model(),
                closed == bar_closed(before, closed_scene),
                editors@ == body_leaves(closed.views, leaves(closed.nodes)),
                start.went_on(*self),
                requests_of(start.said(*self)) == first + wrap_requests(editors@.take(i as int)),
                start.said(*self)[0].after == closed_scene,
                forall|j: int|
                    0 <= j < i ==> gave_bar(#[trigger] start.said(*self)[j + 1], spaces[j]),
            decreases editors.len() - i,
        {
            let editor = editors[i];
            let ghost here = *self;
            let result = self.scene_wrap(editor.space, editor.view);
            let ghost exchange = self.talk().last();
            proof {
                lemma_just_said(here, *self, exchange);
                lemma_said(start, here, *self);
                let taken = editors@.take(i as int);
                let next = editors@.take(i + 1);
                let request = SceneRequest::Wrap { target: editor.space, view: editor.view };
                assert(wrap_requests(next) =~= wrap_requests(taken) + seq![request]);
                assert(requests_of(start.said(*self)) =~= first + wrap_requests(next));
                assert(requests_of(start.said(*self)).len() == start.said(*self).len());
                assert(requests_of(start.said(here)).len() == start.said(here).len());
                assert(start.said(*self)[0] == start.said(here)[0]);
            }
            let pane = match result {
                Ok(pane) => pane,
                Err(error) => {
                    proof {
                        let outcome = SpreadOutcome {
                            closed: closed_scene,
                            spaces,
                            scene: closed_scene,
                        };
                        let all = spread_requests(before, outcome);
                        assert(all.take(i + 2) =~= first + wrap_requests(editors@.take(i + 1)));
                        assert(spread_refuses(before, start.said(*self), outcome, error));
                    }
                    return Err(error);
                },
            };
            let ghost said_here = start.said(*self);
            proof {
                assert forall|j: int| 0 <= j < i implies gave_bar(
                    #[trigger] said_here[j + 1],
                    spaces[j],
                ) by {
                    assert(said_here[j + 1] == start.said(here)[j + 1]);
                }
                assert(said_here[i + 1] == exchange);
            }
            match self.assign(editor.view, pane.status_space, STATUS_PANE) {
                Ok(_) => {},
                Err(error) => {
                    assert(closed.views.dom().contains(editor.view.0));
                    return Err(error);
                },
            }
            let ghost assigned = self.model();
            assert(assigned.views.dom() =~= closed.views.dom());
            let ghost assigning = *self;
            self.status_by_editor.insert(editor.view.0, pane.status_space);
            proof {
                let taken = editors@.take(i as int);
                let next = editors@.take(i + 1);
                let now = spaces.push(pane.status_space);
                assert(self.model() =~= (WorkspaceModel {
                    status_by_editor: assigned.status_by_editor.insert(
                        editor.view.0,
                        pane.status_space,
                    ),
                    ..assigned
                }));
                assert(assigning.went_on(*self));
                assert(next.drop_last() =~= taken);
                assert(now.drop_last() =~= spaces);
                assert(next.last() == editor);
                assert(self.model() =~= with_scene(
                    with_bars(closed, next, now),
                    scene_of(self.model()),
                ));
                assert(start.said(*self) =~= said_here);
                spaces = now;
            }
            i = i + 1;
        }
        assert(editors@.take(i as int) =~= editors@);
        let ghost here = self.model();
        let ghost spreading = *self;
        self.status_placement = StatusBarPlacement::PerPane;
        proof {
            assert(spreading.went_on(*self));
            let outcome = SpreadOutcome { closed: closed_scene, spaces, scene: scene_of(here) };
            assert(self.model() =~= spread(before, outcome));
            lemma_scene_after(start, *self);
            assert(requests_of(start.said(*self)).len() == start.said(*self).len());
            assert(spread_as(before, self.model(), start.said(*self), outcome));
        }
        Ok(())
    }

    /// The leaves that are main areas of their views, in their order.
    fn body_spaces(&self) -> (result: Result<Vec<Leaf>, LayoutError>)
        ensures
            match result {
                Ok(editors) => {
                    &&& editors@ == body_leaves(self.model().views, leaves(self.model().nodes))
                    &&& forall|i: int|
                        0 <= i < editors@.len() ==> self.model().views.contains_key(
                            (#[trigger] editors@[i]).view.0,
                        )
                },
                Err(error) => leaf_missing(self.model(), error),
            },
    {
        let ghost model = self.model();
        let all = scene_views(&self.scene);
        let mut editors: Vec<Leaf> = Vec::new();
        let mut i: usize = 0;
        while i < all.len()
            invariant
                i <= all.len(),
                model == self.model(),
                all@ == leaves(model.nodes),
                editors@ == body_leaves(model.views, all@.take(i as int)),
                forall|j: int|
                    0 <= j < editors@.len() ==> model.views.contains_key(
                        (#[trigger] editors@[j]).view.0,
                    ),
            decreases all.len() - i,
        {
            let leaf = all[i];
            assert(all@.take(i + 1).drop_last() =~= all@.take(i as int));
            match self.view(leaf.view) {
                Some(_) => {},
                None => {
                    assert(leaves(model.nodes)[i as int] == leaf);
                    return Err(LayoutError::MissingView(leaf.view));
                },
            }
            if self.is_body(leaf.view, leaf.space) {
                editors.push(leaf);
            }
            i = i + 1;
        }
        assert(all@.take(i as int) =~= all@);
        Ok(editors)
    }

    /// Puts one status bar in the place of many.
    fn gather_status_bars(&mut self) -> (result: Result<(), LayoutError>)
        requires
            old(self).valid(),
            old(self).model().placement is PerPane,
        ensures
            match result {
                Ok(_) => {
                    &&& views_ready(final(self).model())
                    &&& exists|outcome: GatherOutcome| #[trigger]
                        gathered_as(
                            old(self).model(),
                            final(self).model(),
                            old(self).said(*final(self)),
                            outcome,
                        )
                },
                Err(error) => cannot_place(
                    old(self).model(),
                    StatusBarPlacement::Global,
                    old(self).said(*final(self)),
                    error,
                ),
            },
            old(self).went_on(*final(self)),
    {
        let ghost before = self.model();
        let ghost start = *self;
        let ghost index = before.status_by_editor;
        let focused_editor = match self.view_for_space(self.focused) {
            Some(view) => view,
            None => {
                return Err(LayoutError::NoFocusableSpace);
            },
        };
        proof {
            lemma_shown_view_is_there(before, before.focused, focused_editor);
        }
        let editors = sorted_keys(&self.status_by_editor);
        let bars = self.status_by_editor.clone();
        self.status_by_editor = HashMap::new();
        assert(start.went_on(*self));
        let ghost emptied = WorkspaceModel { status_by_editor: Map::empty(), ..before };
        assert(self.model().status_by_editor =~= Map::empty());
        assert(self.model() =~= emptied);
        let mut i: usize = 0;
        assert(without_bars(emptied, index, editors@.take(0)) == emptied);
        let ghost outcome = GatherOutcome {
            editors: editors@,
            space: before.focused,
            scene: scene_of(before),
        };
        let ghost all = gather_requests(before, outcome);
        proof {
            lemma_nothing_said_yet(start, *self);
            assert(close_requests(bars_of(index, editors@.take(0))) =~= Seq::empty());
        }
        while i < editors.len()
            invariant
                i <= editors.len(),
                bars@ == index,
                forall|editor: u64| #[trigger]
                    index.contains_key(editor) <==> editors@.contains(editor),
                views_ready(self.model()),
                self.model().views.dom() == before.views.dom(),
                self.model().scene_revision == before.scene_revision,
                self.model() == with_scene(
                    without_bars(emptied, index, editors@.take(i as int)),
                    scene_of(self.model()),
                ),
                start == *old(self),
                before == start.model(),
                index == before.status_by_editor,
                outcome.editors == editors@,
                lists_editors(before, outcome),
                all == gather_requests(before, outcome),
                start.went_on(*self),
                requests_of(start.said(*self)) == close_requests(
                    bars_of(index, editors@.take(i as int)),
                ),
            decreases editors.len() - i,
        {
            let editor = editors[i];
            assert(editors@.contains(editor));
            assert(index.contains_key(editor));
            let ghost taken = editors@.take(i as int);
            let ghost next = editors@.take(i + 1);
            assert(next.drop_last() =~= taken);
            assert(next.last() == editor);
            if let Some(space) = bars.get(&editor) {
                let space = *space;
                let ghost here = *self;
                let result = self.scene_close(space);
                proof {
                    lemma_just_said(here, *self, self.talk().last());
                    lemma_said(start, here, *self);
                    assert(close_requests(bars_of(index, next)) =~= close_requests(
                        bars_of(index, taken),
                    ) + seq![SceneRequest::Close { space }]);
                    assert(requests_of(start.said(*self)).len() == start.said(*self).len());
                    assert(all.take(i + 1) =~= close_requests(bars_of(index, next)));
                }
                let ghost said_here = start.said(*self);
                match result {
                    Ok(_) => {},
                    Err(error) => {
                        assert(gather_refuses(before, said_here, outcome, error));
                        return Err(error);
                    },
                }
                self.release(ViewId(editor), space);
                proof {
                    assert(self.model().views.dom() =~= before.views.dom());
                    assert(self.model() =~= with_scene(
                        without_bars(emptied, index, next),
                        scene_of(self.model()),
                    ));
                    assert(start.said(*self) =~= said_here);
                }
            }
            i = i + 1;
        }
        assert(editors@.take(i as int) =~= editors@);
        let ghost here = *self;
        let result = self.scene_attach(focused_editor);
        let ghost exchange = self.talk().last();
        proof {
            lemma_just_said(here, *self, exchange);
            lemma_said(start, here, *self);
            assert(requests_of(start.said(*self)) =~= all);
            assert(requests_of(start.said(*self)).len() == start.said(*self).len());
            assert(all.take(all.len() as int) =~= all);
        }
        let ghost said_here = start.said(*self);
        let space = match result {
            Ok(space) => space,
            Err(error) => {
                assert(gather_refuses(before, said_here, outcome, error));
                return Err(error);
            },
        };
        match self.assign(focused_editor, space, STATUS_PANE) {
            Ok(_) => {},
            Err(error) => {
                assert(before.views.dom().contains(focused_editor.0));
                return Err(error);
            },
        }
        let ghost gathering = *self;
        self.global_status_space = Some(space);
        self.status_placement = StatusBarPlacement::Global;
        proof {
            assert(gathering.went_on(*self));
            let outcome = GatherOutcome { editors: editors@, space, scene: scene_of(self.model()) };
            assert(self.model() =~= gathered(before, outcome));
            assert(start.said(*self) =~= said_here);
            assert(gathered_as(before, self.model(), said_here, outcome));
        }
        Ok(())
    }
}

/// Every view has got a status bar of its own; the focus is where it was.
spec fn spread_as(
    before: WorkspaceModel,
    after: WorkspaceModel,
    said: Seq<Exchange>,
    outcome: SpreadOutcome,
) -> bool {
    &&& spread_said(before, said, outcome)
    &&& after == spread(before, outcome)
    &&& after.scene_revision == before.scene_revision
}

/// One status bar has come in the place of many; the focus is where it was.
spec fn gathered_as(
    before: WorkspaceModel,
    after: WorkspaceModel,
    said: Seq<Exchange>,
    outcome: GatherOutcome,
) -> bool {
    &&& gather_said(before, said, outcome)
    &&& after == gathered(before, outcome)
    &&& after.scene_revision == before.scene_revision
}

} // verus!
