//! Panes that extensions add to views.

use crate::protocol::{SpaceId, ViewId};
use crate::text::same_text;
use crate::view::extension::definition::{direction_of, ViewExtensionPaneSide};
use crate::view::instance::{with_pane, without_pane, ViewModel};
use crate::view::layout::{LayoutError, WorkspaceFault};
use crate::view::panes::{key_for, space_for, uses, BODY_PANE, STATUS_PANE};
use crate::view::scene::{
    focus_after, view_at, Exchange, SceneAnswer, SceneBuilder, SceneModel, SceneRequest, Sizing,
};
use crate::view::soundness::{
    is_sole_status, law_status_space_shows_its_view, scene_of, view_agrees, views_ready,
    workspace_sound, WorkspaceModel,
};
use crate::view::talk::{begins, refused, requests_of, stops_at};
use crate::view::workspace::changes::{settle_refuses, settled};
use crate::view::workspace::closing::close_requests;
use crate::view::workspace::family::would_be_unsound;
use crate::view::workspace::queries::{
    insert_rising, lemma_shown_view_is_there, replacement_space,
};
use crate::view::workspace::steps::{refocused, revised, sync_requests, with_scene, with_view};
use crate::view::workspace::{
    group_talk, lemma_just_said, lemma_nothing_said_yet, lemma_said, lemma_scene_after, rising,
    ViewWorkspace,
};
use vstd::prelude::*;
use vstd::string::StringExecFns;
use vstd::view::View as _;

verus! {

broadcast use {vstd::std_specs::hash::group_hash_axioms, group_talk};

/// A key that no extension can use.
pub open spec fn is_reserved(key: Seq<char>) -> bool {
    key == BODY_PANE@ || key == STATUS_PANE@
}

/// Whether no extension can use the key.
pub fn is_reserved_key(key: &str) -> (reserved: bool)
    ensures
        reserved == is_reserved(key@),
{
    same_text(key, BODY_PANE) || same_text(key, STATUS_PANE)
}

/// The error names a pane key.
pub open spec fn tells_reserved(error: LayoutError, key: Seq<char>) -> bool {
    error matches LayoutError::InvalidWorkspace(WorkspaceFault::ReservedPaneKey(told)) && told@
        == key
}

/// The error says that a view has nothing to put a pane next to.
pub open spec fn tells_no_anchor(error: LayoutError, view: ViewId, key: Seq<char>) -> bool {
    error matches LayoutError::InvalidWorkspace(
        WorkspaceFault::NoPaneAnchor { view: told, key: told_key },
    ) && told == view && told_key@ == key
}

/// One of the keys.
pub open spec fn among(keys: Seq<String>, key: Seq<char>) -> bool {
    exists|i: int| 0 <= i < keys.len() && (#[trigger] keys[i])@ == key
}

/// A view uses the space under one of the keys.
pub open spec fn is_keyed(workspace: WorkspaceModel, keys: Seq<String>, space: SpaceId) -> bool {
    exists|id: u64| #[trigger]
        workspace.views.contains_key(id) && workspace.views[id].panes.contains_key(space) && among(
            keys,
            workspace.views[id].panes[space],
        )
}

/// The spaces that views use under one of the keys, the largest number first.
pub open spec fn keyed_spaces(
    workspace: WorkspaceModel,
    keys: Seq<String>,
    spaces: Seq<SpaceId>,
) -> bool {
    &&& forall|i: int, j: int|
        0 <= i < j < spaces.len() ==> (#[trigger] spaces[i]).0 > (#[trigger] spaces[j]).0
    &&& forall|space: SpaceId|
        spaces.contains(space) <==> #[trigger] is_keyed(workspace, keys, space)
}

/// The views once they have given up some spaces.
pub open spec fn released(workspace: WorkspaceModel, spaces: Seq<SpaceId>) -> Map<u64, ViewModel>
    decreases spaces.len(),
{
    if spaces.len() == 0 {
        workspace.views
    } else {
        let rest = released(workspace, spaces.drop_last());
        let space = spaces.last();
        let view = view_at(workspace.nodes, space)->0;
        rest.insert(view.0, without_pane(rest[view.0], space))
    }
}

/// The workspace once views have given up some spaces, before the focus moves.
pub open spec fn released_draft(
    workspace: WorkspaceModel,
    spaces: Seq<SpaceId>,
    scene: SceneModel,
) -> WorkspaceModel {
    with_scene(WorkspaceModel { views: released(workspace, spaces), ..workspace }, scene)
}

/// Panes have been removed.
pub open spec fn panes_removed(
    before: WorkspaceModel,
    after: WorkspaceModel,
    said: Seq<Exchange>,
    keys: Seq<String>,
    spaces: Seq<SpaceId>,
    scene: SceneModel,
) -> bool {
    let draft = released_draft(before, spaces, scene);
    let preferred = Some(before.focused);
    &&& keyed_spaces(before, keys, spaces)
    &&& first_reserved(before, spaces, 0) is None
    &&& after.views.dom() == before.views.dom()
    &&& focus_after(draft.nodes, draft.focused, preferred) is Some
    &&& after == settled(draft, preferred, scene_of(after))
    &&& requests_of(said) == close_requests(spaces) + sync_requests(refocused(draft, preferred))
    &&& said[spaces.len() - 1].after == scene
}

/// The space is used under a key that no extension can use.
pub open spec fn reserved_at(workspace: WorkspaceModel, space: SpaceId) -> bool {
    view_at(workspace.nodes, space) matches Some(view) && (key_for(
        workspace.views[view.0].panes,
        space,
    ) matches Some(key) && is_reserved(key))
}

/// The first of the spaces, from index `i` on, that is used under a key that no extension can use.
pub open spec fn first_reserved(
    workspace: WorkspaceModel,
    spaces: Seq<SpaceId>,
    i: int,
) -> Option<int>
    decreases spaces.len() - i,
{
    if i >= spaces.len() {
        None
    } else if reserved_at(workspace, spaces[i]) {
        Some(i)
    } else {
        first_reserved(workspace, spaces, i + 1)
    }
}

/// The workspace with a pane of an extension, in a space that a builder gave.
pub open spec fn with_extension_pane(
    workspace: WorkspaceModel,
    view: ViewId,
    key: Seq<char>,
    space: SpaceId,
    scene: SceneModel,
) -> WorkspaceModel {
    revised(
        with_view(
            with_scene(workspace, scene),
            view.0,
            with_pane(workspace.views[view.0], space, key),
        ),
    )
}

/// What is asked of a builder for a space of a pane.
pub open spec fn pane_request(
    view: ViewId,
    anchor: SpaceId,
    side: ViewExtensionPaneSide,
) -> SceneRequest {
    SceneRequest::Split {
        target: anchor,
        view,
        focusable: false,
        direction: direction_of(side),
    }
}

/// What was said for a pane, and the space that the builder gave.
pub open spec fn pane_said(
    view: ViewId,
    anchor: SpaceId,
    side: ViewExtensionPaneSide,
    size: u16,
    said: Seq<Exchange>,
    space: SpaceId,
) -> bool {
    &&& requests_of(said) == seq![
        pane_request(view, anchor, side),
        SceneRequest::Size { target: space, sizing: Sizing::Fixed(size as i32) },
    ]
    &&& said[0].answer == SceneAnswer::Split(space)
}

/// The error says why a pane cannot be shown, with what was said to the builder for it: the
/// builder refused, or the scene that it gave does not fit.
pub open spec fn cannot_install(
    workspace: WorkspaceModel,
    view: ViewId,
    key: Seq<char>,
    anchor: SpaceId,
    side: ViewExtensionPaneSide,
    size: u16,
    said: Seq<Exchange>,
    error: LayoutError,
) -> bool {
    ||| stops_at(said, seq![pane_request(view, anchor, side)], error)
    ||| exists|space: SpaceId| #[trigger]
        pane_said(view, anchor, side, size, said, space) && (refused(said, error)
            || would_be_unsound(
            with_extension_pane(workspace, view, key, space, said[1].after),
            error,
        ))
}

/// The error says why panes cannot be removed, with what was said to the builder for it: the
/// builder refused, a pane is not one of an extension, or what the builder gave does not fit.
pub open spec fn removal_refuses(
    workspace: WorkspaceModel,
    keys: Seq<String>,
    spaces: Seq<SpaceId>,
    said: Seq<Exchange>,
    error: LayoutError,
) -> bool {
    &&& keyed_spaces(workspace, keys, spaces)
    &&& match first_reserved(workspace, spaces, 0) {
        Some(i) => {
            ||| stops_at(said, close_requests(spaces.take(i)), error)
            ||| requests_of(said) == close_requests(spaces.take(i)) && tells_reserved_removal(
                workspace,
                spaces[i],
                error,
            )
        },
        None => {
            ||| stops_at(said, close_requests(spaces), error)
            ||| begins(said, close_requests(spaces)) && settle_refuses(
                released_draft(workspace, spaces, said[spaces.len() - 1].after),
                Some(workspace.focused),
                said.skip(spaces.len() as int),
                error,
            )
        },
    }
}

/// The error names the key of a space that no extension can use.
pub open spec fn tells_reserved_removal(
    workspace: WorkspaceModel,
    space: SpaceId,
    error: LayoutError,
) -> bool {
    error matches LayoutError::InvalidWorkspace(WorkspaceFault::ReservedPaneRemoval(key)) && (
    view_at(workspace.nodes, space) matches Some(view) && key_for(
        workspace.views[view.0].panes,
        space,
    ) == Some(key@))
}

/// Whether a key is among the keys.
fn holds_key(keys: &Vec<String>, key: &str) -> (holds: bool)
    ensures
        holds == among(keys@, key@),
{
    let mut i: usize = 0;
    while i < keys.len()
        invariant
            i <= keys.len(),
            forall|j: int| 0 <= j < i ==> (#[trigger] keys@[j])@ != key@,
        decreases keys.len() - i,
    {
        if same_text(keys[i].as_str(), key) {
            assert(keys@[i as int]@ == key@);
            return true;
        }
        i = i + 1;
    }
    false
}

impl<B: SceneBuilder> ViewWorkspace<B> {
    /// Shows a pane of an extension next to a view, unless it is there.
    pub fn install_extension_pane(
        &mut self,
        view: ViewId,
        key: &str,
        side: ViewExtensionPaneSide,
        size: u16,
    ) -> (result: Result<SpaceId, LayoutError>)
        requires
            old(self).valid(),
            old(self).model().scene_revision < u64::MAX,
        ensures
            ({
                let before = old(self).model();
                &&& result is Err ==> *final(self) == *old(self)
                &&& if is_reserved(key@) {
                    result matches Err(error) && tells_reserved(error, key@)
                } else if !before.views.contains_key(view.0) {
                    result == Err::<SpaceId, LayoutError>(LayoutError::MissingView(view))
                } else {
                    match (
                        space_for(before.views[view.0].panes, key@),
                        replacement_space(before, view.0),
                    ) {
                        (Some(space), _) => result == Ok::<SpaceId, LayoutError>(space)
                            && *final(self) == *old(self),
                        (None, None) => result matches Err(error) && tells_no_anchor(
                            error,
                            view,
                            key@,
                        ),
                        (None, Some(anchor)) => match result {
                            Ok(space) => {
                                &&& final(self).valid()
                                &&& final(self).model() == with_extension_pane(
                                    before,
                                    view,
                                    key@,
                                    space,
                                    scene_of(final(self).model()),
                                )
                                &&& old(self).went_on(*final(self))
                                &&& pane_said(
                                    view,
                                    anchor,
                                    side,
                                    size,
                                    old(self).said(*final(self)),
                                    space,
                                )
                            },
                            Err(error) => exists|said: Seq<Exchange>| #[trigger]
                                old(self).may_say(said) && cannot_install(
                                    before,
                                    view,
                                    key@,
                                    anchor,
                                    side,
                                    size,
                                    said,
                                    error,
                                ),
                        },
                    }
                }
            }),
    {
        let ghost before = self.model();
        if is_reserved_key(key) {
            return Err(
                LayoutError::InvalidWorkspace(
                    WorkspaceFault::ReservedPaneKey(String::from_str(key)),
                ),
            );
        }
        match self.view(view) {
            Some(target) => {
                if let Some(space) = target.panes().space_for_key(key) {
                    return Ok(space);
                }
            },
            None => {
                return Err(LayoutError::MissingView(view));
            },
        }
        let anchor = match self.replacement_space_for_view(view) {
            Some(anchor) => anchor,
            None => {
                return Err(
                    LayoutError::InvalidWorkspace(
                        WorkspaceFault::NoPaneAnchor { view, key: String::from_str(key) },
                    ),
                );
            },
        };
        let direction = side.direction();
        let mut draft = self.draft();
        let result = draft.scene_split(anchor, view, false, direction);
        let ghost middle = draft;
        let ghost split_exchange = draft.talk().last();
        proof {
            lemma_just_said(*self, draft, split_exchange);
            let request = seq![pane_request(view, anchor, side)];
            assert(requests_of(self.said(draft)) =~= request);
            assert(request.take(1) =~= request);
        }
        let split = match result {
            Ok(split) => split,
            Err(error) => {
                assert(cannot_install(
                    before,
                    view,
                    key@,
                    anchor,
                    side,
                    size,
                    self.said(draft),
                    error,
                ));
                return Err(error);
            },
        };
        let space = split.new_space;
        let sizing = Sizing::Fixed(size as i32);
        let result = draft.scene_size(space, sizing);
        let ghost size_exchange = draft.talk().last();
        let ghost said = self.said(draft);
        proof {
            lemma_just_said(middle, draft, size_exchange);
            lemma_said(*self, middle, draft);
            assert(said =~= seq![split_exchange, size_exchange]);
            assert(requests_of(said) =~= seq![
                pane_request(view, anchor, side),
                SceneRequest::Size { target: space, sizing },
            ]);
            assert(pane_said(view, anchor, side, size, said, space));
        }
        match result {
            Ok(_) => {},
            Err(error) => {
                assert(cannot_install(before, view, key@, anchor, side, size, said, error));
                return Err(error);
            },
        }
        match draft.assign(view, space, key) {
            Ok(_) => {},
            Err(error) => {
                return Err(error);
            },
        }
        draft.revise();
        assert(self.said(draft) =~= said);
        assert(draft.model() =~= with_extension_pane(
            before,
            view,
            key@,
            space,
            scene_of(draft.model()),
        ));
        match draft.validate() {
            Ok(_) => {},
            Err(error) => {
                assert(cannot_install(before, view, key@, anchor, side, size, said, error));
                return Err(error);
            },
        }
        *self = draft;
        Ok(space)
    }

    /// The spaces that views use under one of the keys, the largest number first.
    fn spaces_with_keys(&self, keys: &Vec<String>) -> (spaces: Vec<SpaceId>)
        ensures
            keyed_spaces(self.model(), keys@, spaces@),
    {
        let ghost model = self.model();
        let views = self.views();
        let mut numbers: Vec<u64> = Vec::new();
        let mut i: usize = 0;
        while i < views.len()
            invariant
                i <= views.len(),
                model == self.model(),
                rising(numbers@),
                forall|space: u64|
                    #[trigger] numbers@.contains(space) <==> keyed_by(
                        model,
                        keys@,
                        views@.take(i as int),
                        SpaceId(space),
                    ),
            decreases views.len() - i,
        {
            let ghost before = numbers@;
            let ghost taken = views@.take(i as int);
            let ghost next = views@.take(i + 1);
            if let Some(data) = self.view(views[i]) {
                let ghost panes = data.model().panes;
                let spaces = data.panes().spaces();
                let mut j: usize = 0;
                while j < spaces.len()
                    invariant
                        j <= spaces.len(),
                        panes == data.model().panes,
                        rising(numbers@),
                        forall|space: SpaceId|
                            spaces@.contains(space) <==> #[trigger] panes.contains_key(space),
                        forall|space: u64|
                            #[trigger] numbers@.contains(space) <==> before.contains(space) || (
                            spaces@.take(j as int).contains(SpaceId(space)) && among(
                                keys@,
                                panes[SpaceId(space)],
                            )),
                    decreases spaces.len() - j,
                {
                    let space = spaces[j];
                    let ghost seen = spaces@.take(j as int);
                    let ghost now = spaces@.take(j + 1);
                    assert(spaces@.contains(space));
                    assert forall|other: SpaceId| #[trigger] now.contains(other) <==> seen.contains(
                        other,
                    ) || other == space by {
                        if now.contains(other) {
                            let k = choose|k: int| 0 <= k < now.len() && now[k] == other;
                            if k < j {
                                assert(seen[k] == other);
                            }
                        }
                        if seen.contains(other) {
                            let k = choose|k: int| 0 <= k < seen.len() && seen[k] == other;
                            assert(now[k] == other);
                        }
                        if other == space {
                            assert(now[j as int] == other);
                        }
                    }
                    let wanted = match data.panes().key_for_space(space) {
                        Some(key) => holds_key(keys, key),
                        None => false,
                    };
                    if wanted {
                        insert_rising(&mut numbers, space.0);
                    }
                    j = j + 1;
                }
                assert(spaces@.take(j as int) =~= spaces@);
            }
            proof {
                assert forall|space: u64|
                    #[trigger] numbers@.contains(space) <==> keyed_by(
                        model,
                        keys@,
                        next,
                        SpaceId(space),
                    ) by {
                    if keyed_by(model, keys@, taken, SpaceId(space)) {
                        let k = choose|k: int|
                            0 <= k < taken.len() && keyed_at(
                                model,
                                keys@,
                                #[trigger] taken[k],
                                SpaceId(space),
                            );
                        assert(next[k] == taken[k]);
                    }
                    if keyed_by(model, keys@, next, SpaceId(space)) {
                        let k = choose|k: int|
                            0 <= k < next.len() && keyed_at(
                                model,
                                keys@,
                                #[trigger] next[k],
                                SpaceId(space),
                            );
                        if k < i {
                            assert(taken[k] == next[k]);
                        }
                    }
                    assert(next[i as int] == views@[i as int]);
                }
            }
            i = i + 1;
        }
        assert(views@.take(i as int) =~= views@);
        let mut spaces: Vec<SpaceId> = Vec::new();
        let mut k: usize = numbers.len();
        while k > 0
            invariant
                k <= numbers.len(),
                rising(numbers@),
                spaces@.len() == numbers.len() - k,
                forall|j: int|
                    0 <= j < spaces@.len() ==> (#[trigger] spaces@[j]).0 == numbers@[numbers@.len()
                        - 1 - j],
            decreases k,
        {
            k = k - 1;
            spaces.push(SpaceId(numbers[k]));
        }
        proof {
            assert forall|space: SpaceId|
                spaces@.contains(space) <==> #[trigger] is_keyed(model, keys@, space) by {
                if spaces@.contains(space) {
                    let j = choose|j: int| 0 <= j < spaces@.len() && spaces@[j] == space;
                    assert(numbers@[numbers@.len() - 1 - j] == space.0);
                    assert(numbers@.contains(space.0));
                    let m = choose|m: int|
                        0 <= m < views@.len() && keyed_at(
                            model,
                            keys@,
                            #[trigger] views@[m],
                            space,
                        );
                    assert(model.views.contains_key(views@[m].0));
                }
                if is_keyed(model, keys@, space) {
                    let id = choose|id: u64| #[trigger]
                        model.views.contains_key(id) && model.views[id].panes.contains_key(space)
                            && among(keys@, model.views[id].panes[space]);
                    assert(crate::view::forest::numbers_of(views@).contains(id));
                    let m = choose|m: int|
                        0 <= m < views@.len() && crate::view::forest::numbers_of(views@)[m] == id;
                    assert(keyed_at(model, keys@, views@[m], space));
                    assert(numbers@.contains(space.0));
                    let j = choose|j: int| 0 <= j < numbers@.len() && numbers@[j] == space.0;
                    assert(spaces@[numbers@.len() - 1 - j] == space);
                }
            }
        }
        spaces
    }

    /// Removes the panes with some keys from every view, and tells how many there were.
    pub fn remove_extension_panes(&mut self, keys: &Vec<String>) -> (result: Result<
        usize,
        LayoutError,
    >)
        requires
            old(self).valid(),
            old(self).model().scene_revision < u64::MAX,
        ensures
            ({
                let before = old(self).model();
                &&& result is Err ==> *final(self) == *old(self)
                &&& if forall|space: SpaceId| !#[trigger] is_keyed(before, keys@, space) {
                    result == Ok::<usize, LayoutError>(0) && *final(self) == *old(self)
                } else {
                    match result {
                        Ok(count) => {
                            &&& final(self).valid()
                            &&& forall|space: SpaceId| !#[trigger]
                                is_keyed(final(self).model(), keys@, space)
                            &&& exists|spaces: Seq<SpaceId>, scene: SceneModel|
                                count == spaces.len() && #[trigger] panes_removed(
                                    before,
                                    final(self).model(),
                                    old(self).said(*final(self)),
                                    keys@,
                                    spaces,
                                    scene,
                                )
                            &&& old(self).went_on(*final(self))
                        },
                        Err(error) => exists|said: Seq<Exchange>, spaces: Seq<SpaceId>|
                            old(self).may_say(said) && #[trigger] removal_refuses(
                                before,
                                keys@,
                                spaces,
                                said,
                                error,
                            ),
                    }
                }
            }),
    {
        let ghost before = self.model();
        let spaces = self.spaces_with_keys(keys);
        if spaces.len() == 0 {
            assert forall|space: SpaceId| !#[trigger] is_keyed(before, keys@, space) by {
                assert(!spaces@.contains(space));
            }
            return Ok(0);
        }
        assert(spaces@.contains(spaces@[0]));
        assert(is_keyed(before, keys@, spaces@[0]));
        let mut draft = self.draft();
        let mut i: usize = 0;
        assert(released(before, spaces@.take(0)) == before.views);
        assert(draft.model() =~= released_draft(before, spaces@.take(0), scene_of(draft.model())));
        proof {
            lemma_nothing_said_yet(*self, draft);
            assert(close_requests(spaces@.take(0)) =~= Seq::empty());
        }
        while i < spaces.len()
            invariant
                i <= spaces.len(),
                before == self.model(),
                self.valid(),
                keyed_spaces(before, keys@, spaces@),
                views_ready(draft.model()),
                draft.model().views.dom() == before.views.dom(),
                draft.model() == released_draft(
                    before,
                    spaces@.take(i as int),
                    scene_of(draft.model()),
                ),
                self.went_on(draft),
                requests_of(self.said(draft)) == close_requests(spaces@.take(i as int)),
                first_reserved(before, spaces@, 0) == first_reserved(before, spaces@, i as int),
            decreases spaces.len() - i,
        {
            let space = spaces[i];
            assert(spaces@.contains(space));
            assert(is_keyed(before, keys@, space));
            let ghost taken = spaces@.take(i as int);
            let ghost next = spaces@.take(i + 1);
            assert(next.drop_last() =~= taken);
            assert(next.last() == space);
            proof {
                let id = choose|id: u64| #[trigger]
                    before.views.contains_key(id) && before.views[id].panes.contains_key(space)
                        && among(keys@, before.views[id].panes[space]);
                assert(view_agrees(before, id));
            }
            let view = match self.view_for_space(space) {
                Some(view) => view,
                None => {
                    assert(false);
                    return Err(LayoutError::NoFocusableSpace);
                },
            };
            if let Some(data) = self.view(view) {
                if let Some(key) = data.panes().key_for_space(space) {
                    if is_reserved_key(key) {
                        let error = LayoutError::InvalidWorkspace(
                            WorkspaceFault::ReservedPaneRemoval(String::from_str(key)),
                        );
                        assert(removal_refuses(before, keys@, spaces@, self.said(draft), error));
                        return Err(error);
                    }
                }
            }
            assert(!reserved_at(before, space));
            let ghost here = draft;
            let result = draft.scene_close(space);
            proof {
                lemma_just_said(here, draft, draft.talk().last());
                lemma_said(*self, here, draft);
                assert(close_requests(next) =~= close_requests(taken) + seq![
                    SceneRequest::Close { space },
                ]);
                assert(requests_of(self.said(draft)).len() == self.said(draft).len());
            }
            let ghost said = self.said(draft);
            match result {
                Ok(_) => {},
                Err(error) => {
                    proof {
                        assert(close_requests(spaces@).take(i + 1) =~= close_requests(next));
                        if let Some(k) = first_reserved(before, spaces@, 0) {
                            lemma_first_reserved_from(before, spaces@, i as int);
                            assert(close_requests(spaces@.take(k)).take(i + 1) =~= close_requests(
                                next,
                            ));
                        }
                        assert(removal_refuses(before, keys@, spaces@, said, error));
                    }
                    return Err(error);
                },
            }
            draft.release(view, space);
            proof {
                assert(draft.model() =~= released_draft(before, next, scene_of(draft.model())));
                assert(draft.model().views.dom() =~= before.views.dom());
                assert(self.said(draft) =~= said);
            }
            i = i + 1;
        }
        assert(spaces@.take(i as int) =~= spaces@);
        let ghost scene = scene_of(draft.model());
        let ghost first = draft;
        proof {
            lemma_scene_after(*self, draft);
            assert(requests_of(self.said(draft)).len() == self.said(draft).len());
        }
        let focused = draft.focused;
        assert(focused == before.focused);
        let result = draft.settle(Some(focused));
        proof {
            lemma_said(*self, first, draft);
            let said = self.said(draft);
            let count = spaces@.len() as int;
            assert(said.take(count) =~= self.said(first));
            assert(said.skip(count) =~= first.said(draft));
            assert(said[count - 1] == self.said(first).last());
        }
        match result {
            Ok(_) => {},
            Err(error) => {
                assert(removal_refuses(before, keys@, spaces@, self.said(draft), error));
                return Err(error);
            },
        }
        assert(panes_removed(before, draft.model(), self.said(draft), keys@, spaces@, scene));
        proof {
            law_removed_panes_are_gone(
                before,
                draft.model(),
                self.said(draft),
                keys@,
                spaces@,
                scene,
            );
        }
        *self = draft;
        Ok(spaces.len())
    }
}

/// A view uses the space under one of the keys.
spec fn keyed_at(
    workspace: WorkspaceModel,
    keys: Seq<String>,
    view: ViewId,
    space: SpaceId,
) -> bool {
    workspace.views.contains_key(view.0) && workspace.views[view.0].panes.contains_key(space)
        && among(keys, workspace.views[view.0].panes[space])
}

/// One of the views uses the space under one of the keys.
spec fn keyed_by(
    workspace: WorkspaceModel,
    keys: Seq<String>,
    views: Seq<ViewId>,
    space: SpaceId,
) -> bool {
    exists|i: int| 0 <= i < views.len() && keyed_at(workspace, keys, #[trigger] views[i], space)
}

/// Where the first reserved space is not before an index, it is at or behind it.
proof fn lemma_first_reserved_from(workspace: WorkspaceModel, spaces: Seq<SpaceId>, i: int)
    requires
        0 <= i,
    ensures
        first_reserved(workspace, spaces, i) matches Some(k) ==> i <= k < spaces.len()
            && reserved_at(workspace, spaces[k]),
    decreases spaces.len() - i,
{
    if i < spaces.len() {
        lemma_first_reserved_from(workspace, spaces, i + 1);
    }
}

/// Where no space from an index on is reserved, each of them is not.
proof fn lemma_none_reserved(workspace: WorkspaceModel, spaces: Seq<SpaceId>, i: int, k: int)
    requires
        0 <= i <= k < spaces.len(),
        first_reserved(workspace, spaces, i) is None,
    ensures
        !reserved_at(workspace, spaces[k]),
    decreases k - i,
{
    if i < k {
        lemma_none_reserved(workspace, spaces, i + 1, k);
    }
}

/// What views keep once they have given up some spaces: each the spaces that it had but for those.
proof fn lemma_released(workspace: WorkspaceModel, spaces: Seq<SpaceId>, id: u64)
    requires
        workspace.views.contains_key(id),
    ensures
        released(workspace, spaces).contains_key(id),
        forall|space: SpaceId| #[trigger]
            released(workspace, spaces)[id].panes.contains_key(space) ==> {
                &&& workspace.views[id].panes.contains_key(space)
                &&& workspace.views[id].panes[space] == released(workspace, spaces)[id].panes[space]
                &&& spaces.contains(space) ==> view_at(workspace.nodes, space)->0 != ViewId(id)
            },
    decreases spaces.len(),
{
    if spaces.len() > 0 {
        let fewer = spaces.drop_last();
        lemma_released(workspace, fewer, id);
        assert forall|space: SpaceId| #[trigger]
            released(workspace, spaces)[id].panes.contains_key(space) implies {
            &&& workspace.views[id].panes.contains_key(space)
            &&& workspace.views[id].panes[space] == released(workspace, spaces)[id].panes[space]
            &&& spaces.contains(space) ==> view_at(workspace.nodes, space)->0 != ViewId(id)
        } by {
            assert(released(workspace, fewer)[id].panes.contains_key(space));
            if spaces.contains(space) {
                let k = choose|k: int| 0 <= k < spaces.len() && spaces[k] == space;
                if k < fewer.len() {
                    assert(fewer[k] == space);
                }
            }
        }
    }
}

/// What a space is used for once panes have been removed: it is none of those that were, and it is
/// used as before, unless it is the one status bar.
proof fn lemma_pane_that_is_left(
    before: WorkspaceModel,
    after: WorkspaceModel,
    said: Seq<Exchange>,
    keys: Seq<String>,
    spaces: Seq<SpaceId>,
    scene: SceneModel,
    id: u64,
    space: SpaceId,
)
    requires
        views_ready(before),
        workspace_sound(before),
        panes_removed(before, after, said, keys, spaces, scene),
        after.views.contains_key(id),
        after.views[id].panes.contains_key(space),
    ensures
        !spaces.contains(space),
        !among(keys, after.views[id].panes[space]),
{
    assert(before.views.dom().contains(id));
    assert(view_agrees(before, id));
    lemma_released(before, spaces, id);
    let kept = released(before, spaces)[id];
    if kept.panes.contains_key(space) && after.views[id].panes[space] == kept.panes[space] {
        assert(before.views[id].panes.contains_key(space));
        assert(view_at(before.nodes, space) == Some(ViewId(id)));
        if among(keys, before.views[id].panes[space]) {
            assert(is_keyed(before, keys, space));
        }
    } else {
        assert(before.placement is Global);
        assert(before.global_status == Some(space));
        assert(after.views[id].panes[space] == STATUS_PANE@);
        let owner = choose|owner: u64| #[trigger] is_sole_status(before.views, space, owner);
        law_status_space_shows_its_view(before, owner, space);
        assert(reserved_at(before, space));
        if among(keys, STATUS_PANE@) {
            assert(before.views[owner].panes.contains_key(space));
            assert(is_keyed(before, keys, space));
        }
        if spaces.contains(space) {
            let k = choose|k: int| 0 <= k < spaces.len() && spaces[k] == space;
            lemma_none_reserved(before, spaces, 0, k);
        }
    }
}

/// Once panes have been removed, no view uses a space under any of their keys, so that there is
/// nothing to remove a second time.
pub proof fn law_removed_panes_are_gone(
    before: WorkspaceModel,
    after: WorkspaceModel,
    said: Seq<Exchange>,
    keys: Seq<String>,
    spaces: Seq<SpaceId>,
    scene: SceneModel,
)
    requires
        views_ready(before),
        workspace_sound(before),
        panes_removed(before, after, said, keys, spaces, scene),
    ensures
        forall|space: SpaceId| !#[trigger] is_keyed(after, keys, space),
{
    assert forall|space: SpaceId| !#[trigger] is_keyed(after, keys, space) by {
        if is_keyed(after, keys, space) {
            let id = choose|id: u64| #[trigger]
                after.views.contains_key(id) && after.views[id].panes.contains_key(space) && among(
                    keys,
                    after.views[id].panes[space],
                );
            lemma_pane_that_is_left(before, after, said, keys, spaces, scene, id, space);
        }
    }
}

/// The spaces of removed panes show nothing any more.
pub proof fn law_spaces_of_removed_panes_show_nothing(
    before: WorkspaceModel,
    after: WorkspaceModel,
    said: Seq<Exchange>,
    keys: Seq<String>,
    spaces: Seq<SpaceId>,
    scene: SceneModel,
    space: SpaceId,
)
    requires
        views_ready(before),
        workspace_sound(before),
        workspace_sound(after),
        panes_removed(before, after, said, keys, spaces, scene),
        is_keyed(before, keys, space),
    ensures
        view_at(after.nodes, space) is None,
{
    if let Some(view) = view_at(after.nodes, space) {
        lemma_shown_view_is_there(after, space, view);
        lemma_pane_that_is_left(before, after, said, keys, spaces, scene, view.0, space);
    }
}

/// The number of the view that a space shows.
spec fn owner_of(workspace: WorkspaceModel, space: SpaceId) -> u64 {
    match view_at(workspace.nodes, space) {
        Some(view) => view.0,
        None => 0,
    }
}

/// The views that have a pane with that key.
pub open spec fn views_with(workspace: WorkspaceModel, key: Seq<char>) -> Set<u64> {
    workspace.views.dom().filter(|id: u64| space_for(workspace.views[id].panes, key) is Some)
}

/// As many panes are removed as there are views that have one with the key.
pub proof fn law_one_pane_is_removed_of_each_view(
    workspace: WorkspaceModel,
    key: String,
    spaces: Seq<SpaceId>,
)
    requires
        views_ready(workspace),
        workspace_sound(workspace),
        keyed_spaces(workspace, seq![key], spaces),
    ensures
        spaces.len() == views_with(workspace, key@).len(),
{
    let keys = seq![key];
    let owners = spaces.map_values(|space: SpaceId| owner_of(workspace, space));
    assert(keys[0]@ == key@);
    assert forall|i: int| 0 <= i < spaces.len() implies {
        &&& workspace.views.contains_key(#[trigger] owners[i])
        &&& uses(workspace.views[owners[i]].panes, key@, spaces[i])
    } by {
        assert(spaces.contains(spaces[i]));
        assert(is_keyed(workspace, keys, spaces[i]));
        let id = choose|id: u64| #[trigger]
            workspace.views.contains_key(id) && workspace.views[id].panes.contains_key(spaces[i])
                && among(keys, workspace.views[id].panes[spaces[i]]);
        assert(view_agrees(workspace, id));
        assert(view_at(workspace.nodes, spaces[i]) == Some(ViewId(id)));
    }
    assert(owners.no_duplicates()) by {
        assert forall|i: int, j: int| 0 <= i < j < owners.len() implies owners[i] != owners[j] by {
            assert(spaces[i].0 > spaces[j].0);
            if owners[i] == owners[j] {
                let panes = workspace.views[owners[i]].panes;
                assert(uses(panes, key@, spaces[i]));
                assert(uses(panes, key@, spaces[j]));
                assert(panes[spaces[i]] == panes[spaces[j]]);
            }
        }
    }
    assert forall|id: u64| owners.contains(id) <==> #[trigger] views_with(
        workspace,
        key@,
    ).contains(id) by {
        if owners.contains(id) {
            let i = choose|i: int| 0 <= i < owners.len() && owners[i] == id;
            assert(uses(workspace.views[owners[i]].panes, key@, spaces[i]));
        }
        if views_with(workspace, key@).contains(id) {
            let panes = workspace.views[id].panes;
            let space = space_for(panes, key@)->0;
            assert(uses(panes, key@, space));
            assert(panes.contains_key(space) && among(keys, panes[space]));
            assert(workspace.views.contains_key(id));
            assert(is_keyed(workspace, keys, space));
            assert(spaces.contains(space));
            let i = choose|i: int| 0 <= i < spaces.len() && spaces[i] == space;
            assert(view_agrees(workspace, id));
            assert(owners[i] == id);
        }
    }
    assert(owners.to_set() =~= views_with(workspace, key@));
    owners.unique_seq_to_set();
}

/// A pane that has been shown is found by its key, so that showing it a second time gives the same
/// space and changes nothing.
pub proof fn law_shown_pane_is_found(
    before: WorkspaceModel,
    view: ViewId,
    key: Seq<char>,
    space: SpaceId,
    scene: SceneModel,
)
    ensures
        ({
            let after = with_extension_pane(before, view, key, space, scene);
            &&& after.views.contains_key(view.0)
            &&& space_for(after.views[view.0].panes, key) == Some(space)
        }),
{
    let panes = with_pane(before.views[view.0], space, key).panes;
    assert(uses(panes, key, space));
    let found = choose|other: SpaceId| uses(panes, key, other);
    assert(uses(panes, key, found));
}

} // verus!
