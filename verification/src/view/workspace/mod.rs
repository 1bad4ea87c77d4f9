//! The workspace: views, the scene that shows them, the focus and the status bars.
//!
//! A change is made on a copy, the copy is checked, and only then takes the place of the
//! workspace: what is refused leaves no trace.

pub mod change_laws;
pub mod changes;
pub mod closing;
pub mod compounds;
pub mod content_laws;
pub mod contents;
pub mod extension_panes;
pub mod family;
pub mod outcomes;
pub mod queries;
pub mod refusal_laws;
pub mod removal;
pub mod request_laws;
pub mod status;
pub mod steps;
pub mod validate;

use crate::protocol::{Revision, SpaceId, ViewId};
use crate::view::forest::numbers_of;
use crate::view::instance::View;
use crate::view::layout::StatusBarPlacement;
use crate::view::scene::{view_at, view_for_space, Exchange, Scene, SceneBuilder, SceneRequest};
use crate::view::soundness::{scene_of, views_ready, workspace_sound, WorkspaceModel};
use crate::view::talk::{
    answered, conversed, handed_on, lemma_forked, lemma_handed_on_itself, lemma_one_exchange,
    lemma_requests_join, lemma_talk_joins, requests_of, scene_after, Hand,
};
use std::collections::HashMap;
use vstd::prelude::*;
use vstd::std_specs::iter::IteratorSpec;
use vstd::view::View as _;

verus! {

broadcast use vstd::std_specs::hash::group_hash_axioms;

/// `HashMap::get_mut`: the entry of a key, to be changed in place; every other entry stays.
#[verifier::external_body]
pub(crate) fn entry_mut<'a, V>(map: &'a mut HashMap<u64, V>, key: u64) -> (entry: Option<&'a mut V>)
    ensures
        match entry {
            Some(value) => {
                &&& old(map)@.contains_key(key)
                &&& *value == old(map)@[key]
                &&& final(map)@ == old(map)@.insert(key, *final(value))
            },
            None => !old(map)@.contains_key(key) && final(map)@ == old(map)@,
        },
{
    map.get_mut(&key)
}

/// Nothing was said, and the builder is the same or was taken from it.
pub proof fn lemma_nothing_said<B: SceneBuilder>(a: ViewWorkspace<B>, b: ViewWorkspace<B>)
    requires
        a.talk() == b.talk(),
        handed_on(a.hand(), b.hand()),
    ensures
        a.went_on(b),
        a.said(b) == Seq::<Exchange>::empty(),
{
    reveal(ViewWorkspace::went_on);
    assert(a.said(b) =~= Seq::empty());
    assert(b.talk() =~= a.talk() + a.said(b));
}

/// Where neither the scene nor the builder has changed, nothing was said.
pub broadcast proof fn lemma_same_hand<B: SceneBuilder>(a: ViewWorkspace<B>, b: ViewWorkspace<B>)
    requires
        a.talk() == b.talk(),
        a.builder() == b.builder(),
        a.model().nodes == b.model().nodes,
        a.model().size == b.model().size,
    ensures
        #[trigger] a.went_on(b),
{
    lemma_handed_on_itself(a.hand());
    assert(a.hand() == b.hand());
    lemma_nothing_said(a, b);
}

/// One thing was said.
pub proof fn lemma_one_said<B: SceneBuilder>(
    a: ViewWorkspace<B>,
    b: ViewWorkspace<B>,
    exchange: Exchange,
)
    requires
        b.talk() == a.talk().push(exchange),
        answered(a.hand(), exchange, b.hand()),
    ensures
        a.went_on(b),
{
    reveal(ViewWorkspace::went_on);
    lemma_one_exchange(a.hand(), exchange, b.hand());
    assert(a.said(b) =~= seq![exchange]);
    assert(b.talk() =~= a.talk() + a.said(b));
}

/// What one request leaves to have been said.
pub proof fn lemma_just_said<B: SceneBuilder>(
    a: ViewWorkspace<B>,
    b: ViewWorkspace<B>,
    exchange: Exchange,
)
    requires
        b.talk() == a.talk().push(exchange),
    ensures
        a.said(b) == seq![exchange],
        requests_of(a.said(b)) == seq![exchange.request],
{
    assert(a.said(b) =~= seq![exchange]);
    assert(requests_of(a.said(b)) =~= seq![exchange.request]);
}

/// A workspace that goes on from one that went on has gone on.
pub broadcast proof fn lemma_goes_on<B: SceneBuilder>(
    a: ViewWorkspace<B>,
    b: ViewWorkspace<B>,
    c: ViewWorkspace<B>,
)
    requires
        #[trigger] a.went_on(b),
        #[trigger] b.went_on(c),
    ensures
        a.went_on(c),
{
    reveal(ViewWorkspace::went_on);
    lemma_talk_joins(a.hand(), a.said(b), b.hand(), b.said(c), c.hand());
    assert(a.said(c) =~= a.said(b) + b.said(c));
    assert(c.talk() =~= a.talk() + a.said(c));
}

/// Nothing is said as long as the talk stays as it is.
pub proof fn lemma_nothing_said_yet<B: SceneBuilder>(a: ViewWorkspace<B>, b: ViewWorkspace<B>)
    requires
        a.talk() == b.talk(),
    ensures
        a.said(b) == Seq::<Exchange>::empty(),
        requests_of(a.said(b)) == Seq::<SceneRequest>::empty(),
{
    assert(a.said(b) =~= Seq::empty());
    assert(requests_of(a.said(b)) =~= Seq::empty());
}

/// The scene is what the builder made of it last.
pub proof fn lemma_scene_after<B: SceneBuilder>(a: ViewWorkspace<B>, b: ViewWorkspace<B>)
    requires
        a.went_on(b),
    ensures
        scene_of(b.model()) == scene_after(a.said(b), scene_of(a.model())),
{
    reveal(ViewWorkspace::went_on);
}

/// What was said in two parts.
pub proof fn lemma_said<B: SceneBuilder>(
    a: ViewWorkspace<B>,
    b: ViewWorkspace<B>,
    c: ViewWorkspace<B>,
)
    requires
        a.went_on(b),
        b.went_on(c),
    ensures
        a.went_on(c),
        a.said(c) == a.said(b) + b.said(c),
        requests_of(a.said(c)) == requests_of(a.said(b)) + requests_of(b.said(c)),
{
    lemma_goes_on(a, b, c);
    reveal(ViewWorkspace::went_on);
    assert(a.said(c) =~= a.said(b) + b.said(c));
    lemma_requests_join(a.said(b), b.said(c));
}

/// What was said is something that the builder may answer.
pub broadcast proof fn lemma_was_said<B: SceneBuilder>(a: ViewWorkspace<B>, b: ViewWorkspace<B>)
    requires
        #[trigger] a.went_on(b),
    ensures
        a.may_say(a.said(b)),
{
    reveal(ViewWorkspace::went_on);
}

/// Nothing may be said at any time.
pub proof fn lemma_may_say_nothing<B: SceneBuilder>(a: ViewWorkspace<B>)
    ensures
        a.may_say(Seq::empty()),
{
    lemma_handed_on_itself(a.hand());
    assert(conversed(a.hand(), Seq::empty(), a.hand()));
}

/// What a builder may answer later it may answer from here on.
pub proof fn lemma_may_say_later<B: SceneBuilder>(
    a: ViewWorkspace<B>,
    b: ViewWorkspace<B>,
    said: Seq<Exchange>,
)
    requires
        a.went_on(b),
        b.may_say(said),
    ensures
        a.may_say(a.said(b) + said),
        requests_of(a.said(b) + said) == requests_of(a.said(b)) + requests_of(said),
{
    reveal(ViewWorkspace::went_on);
    let end = choose|end: Hand<B>| #[trigger] conversed(b.hand(), said, end);
    lemma_talk_joins(a.hand(), a.said(b), b.hand(), said, end);
    lemma_requests_join(a.said(b), said);
}

pub broadcast group group_talk {
    lemma_same_hand,
    lemma_goes_on,
    lemma_was_said,
}

/// Numbers rise from one to the next.
pub open spec fn rising(numbers: Seq<u64>) -> bool {
    forall|i: int, j: int| 0 <= i < j < numbers.len() ==> numbers[i] < numbers[j]
}

/// The keys of a map, the smallest first.
pub(crate) fn sorted_keys<V>(map: &HashMap<u64, V>) -> (keys: Vec<u64>)
    ensures
        rising(keys@),
        forall|key: u64| keys@.contains(key) <==> #[trigger] map@.contains_key(key),
{
    let mut sorted: Vec<u64> = Vec::new();
    let ghost all = vstd::std_specs::hash::spec_keys_iter(map).remaining();
    for key in iter: map.keys()
        invariant
            iter.seq() == all,
            all.no_duplicates(),
            rising(sorted@),
            forall|number: u64|
                sorted@.contains(number) <==> exists|i: int|
                    0 <= i < iter.index() && *(#[trigger] all[i]) == number,
    {
        let ghost before = sorted@;
        let ghost index = iter.index();
        let mut at: usize = sorted.len();
        while at > 0 && sorted[at - 1] > *key
            invariant
                at <= sorted.len(),
                before == sorted@,
                rising(before),
                forall|i: int| at <= i < before.len() ==> before[i] > *key,
            decreases at,
        {
            at = at - 1;
        }
        proof {
            if at > 0 && before[at - 1] == *key {
                assert(before.contains(*key));
                let i = choose|i: int| 0 <= i < index && *(#[trigger] all[i]) == *key;
                assert(all[i] == all[index as int]);
            }
        }
        sorted.insert(at, *key);
        proof {
            assert(sorted@ == before.insert(at as int, *key));
            assert forall|number: u64|
                sorted@.contains(number) <==> exists|i: int|
                    0 <= i < index + 1 && *(#[trigger] all[i]) == number by {
                if sorted@.contains(number) {
                    let k = choose|k: int| 0 <= k < sorted@.len() && sorted@[k] == number;
                    if k == at {
                        assert(*all[index as int] == number);
                    } else {
                        let j = if k < at {
                            k
                        } else {
                            k - 1
                        };
                        assert(before[j] == number);
                        assert(before.contains(number));
                        let i = choose|i: int| 0 <= i < index && *(#[trigger] all[i]) == number;
                        assert(*all[i] == number);
                    }
                }
                if exists|i: int| 0 <= i < index + 1 && *(#[trigger] all[i]) == number {
                    let i = choose|i: int| 0 <= i < index + 1 && *(#[trigger] all[i]) == number;
                    if i == index {
                        assert(sorted@[at as int] == number);
                    } else {
                        assert(before.contains(number));
                        let k = choose|k: int| 0 <= k < before.len() && before[k] == number;
                        let j = if k < at {
                            k
                        } else {
                            k + 1
                        };
                        assert(sorted@[j] == number);
                    }
                }
            }
        }
    }
    proof {
        assert(all.unref().to_set() == map@.dom());
        assert forall|key: u64| sorted@.contains(key) <==> #[trigger] map@.contains_key(key) by {
            if sorted@.contains(key) {
                let i = choose|i: int| 0 <= i < all.len() && *(#[trigger] all[i]) == key;
                assert(all.unref()[i] == key);
                assert(all.unref().to_set().contains(key));
            }
            if map@.contains_key(key) {
                assert(all.unref().to_set().contains(key));
                let i = choose|i: int| 0 <= i < all.unref().len() && all.unref()[i] == key;
                assert(*all[i] == key);
            }
        }
    }
    sorted
}

/// A view that is no longer part of the workspace.
pub struct RemovedView {
    pub id: ViewId,
    pub view: View,
}

/// What came of a change, and the views that it removed.
pub struct WorkspaceMutation<T> {
    pub output: T,
    pub removed: Vec<RemovedView>,
}

/// Views, the scene that shows them, the focus and the status bars.
pub struct ViewWorkspace<B: SceneBuilder> {
    scene: Scene,
    scene_builder: B,
    scene_revision: Revision,
    views: HashMap<u64, View>,
    next_view_id: u64,
    focused: SpaceId,
    status_placement: StatusBarPlacement,
    global_status_space: Option<SpaceId>,
    status_by_editor: HashMap<u64, SpaceId>,
    talk: Ghost<Seq<Exchange>>,
}

impl<B: SceneBuilder> ViewWorkspace<B> {
    /// Everything that the workspace holds, besides the builder of its scenes.
    pub closed spec fn model(self) -> WorkspaceModel {
        WorkspaceModel {
            nodes: self.scene.nodes@,
            size: self.scene.size,
            scene_revision: self.scene_revision.0,
            views: self.views@.map_values(|view: View| view.model()),
            next_view_id: self.next_view_id,
            focused: self.focused,
            placement: self.status_placement,
            global_status: self.global_status_space,
            status_by_editor: self.status_by_editor@,
        }
    }

    /// The builder of the scenes.
    pub closed spec fn builder(self) -> B {
        self.scene_builder
    }

    /// The builder with the scene that is shown.
    pub open spec fn hand(self) -> Hand<B> {
        Hand { builder: self.builder(), scene: scene_of(self.model()) }
    }

    /// What was said to the builder for the scene that is shown, the first request first.
    pub closed spec fn talk(self) -> Seq<Exchange> {
        self.talk@
    }

    /// What has been said to the builder from here on.
    pub open spec fn said(self, after: Self) -> Seq<Exchange> {
        after.talk().skip(self.talk().len() as int)
    }

    /// The workspace has come from this one, and its scene from what was said to the builder.
    #[verifier::opaque]
    pub open spec fn went_on(self, after: Self) -> bool {
        &&& after.talk() == self.talk() + self.said(after)
        &&& conversed(self.hand(), self.said(after), after.hand())
    }

    /// The builder may answer like that from here on.
    pub open spec fn may_say(self, said: Seq<Exchange>) -> bool {
        exists|end: Hand<B>| #[trigger] conversed(self.hand(), said, end)
    }

    /// The workspace is in order.
    pub open spec fn valid(self) -> bool {
        views_ready(self.model()) && workspace_sound(self.model())
    }

    /// A copy to try a change on.
    fn draft(&self) -> (draft: Self)
        ensures
            draft.model() == self.model(),
            draft.talk() == self.talk(),
            self.went_on(draft),
    {
        let draft = ViewWorkspace {
            scene: self.scene.clone(),
            scene_builder: self.scene_builder.fork(),
            scene_revision: self.scene_revision,
            views: self.views.clone(),
            next_view_id: self.next_view_id,
            focused: self.focused,
            status_placement: self.status_placement,
            global_status_space: self.global_status_space,
            status_by_editor: self.status_by_editor.clone(),
            talk: self.talk,
        };
        proof {
            assert(draft.model() =~= self.model());
            lemma_forked(self.hand(), draft.hand());
            lemma_nothing_said(*self, draft);
        }
        draft
    }

    pub fn scene(&self) -> (scene: &Scene)
        ensures
            scene.nodes@ == self.model().nodes,
            scene.size == self.model().size,
    {
        &self.scene
    }

    pub fn scene_revision(&self) -> (revision: Revision)
        ensures
            revision.0 == self.model().scene_revision,
    {
        self.scene_revision
    }

    pub fn focused(&self) -> (space: SpaceId)
        ensures
            space == self.model().focused,
    {
        self.focused
    }

    /// The views, the one with the smallest number first.
    pub fn views(&self) -> (views: Vec<ViewId>)
        ensures
            rising(numbers_of(views@)),
            forall|id: u64|
                numbers_of(views@).contains(id) <==> #[trigger] self.model().views.contains_key(id),
    {
        let keys = sorted_keys(&self.views);
        let mut views: Vec<ViewId> = Vec::new();
        let mut i: usize = 0;
        while i < keys.len()
            invariant
                i <= keys.len(),
                numbers_of(views@) =~= keys@.take(i as int),
            decreases keys.len() - i,
        {
            let ghost before = views@;
            views.push(ViewId(keys[i]));
            assert(numbers_of(views@) =~= numbers_of(before).push(keys@[i as int]));
            assert(keys@.take(i + 1) =~= keys@.take(i as int).push(keys@[i as int]));
            i = i + 1;
        }
        assert(keys@.take(i as int) =~= keys@);
        views
    }

    pub fn view(&self, view: ViewId) -> (data: Option<&View>)
        ensures
            match data {
                Some(data) => self.model().views.contains_key(view.0)
                    && self.model().views[view.0] == data.model(),
                None => !self.model().views.contains_key(view.0),
            },
    {
        self.views.get(&view.0)
    }

    /// A view, to be changed in place. What a layout depends on should stay as it is.
    pub fn view_mut(&mut self, view: ViewId) -> (data: Option<&mut View>)
        ensures
            match data {
                Some(data) => {
                    &&& old(self).model().views.contains_key(view.0)
                    &&& data.model() == old(self).model().views[view.0]
                    &&& final(self).model() == (WorkspaceModel {
                        views: old(self).model().views.insert(view.0, final(data).model()),
                        ..old(self).model()
                    })
                    &&& final(self).talk() == old(self).talk()
                    &&& old(self).builder() == final(self).builder()
                },
                None => {
                    &&& !old(self).model().views.contains_key(view.0)
                    &&& final(self).model() == old(self).model()
                    &&& final(self).talk() == old(self).talk()
                    &&& old(self).builder() == final(self).builder()
                },
            },
    {
        entry_mut(&mut self.views, view.0)
    }

    pub fn next_view_id(&self) -> (view: ViewId)
        ensures
            view.0 == self.model().next_view_id,
    {
        ViewId(self.next_view_id)
    }

    pub fn status_bar_placement(&self) -> (placement: StatusBarPlacement)
        ensures
            placement == self.model().placement,
    {
        self.status_placement
    }

    pub fn view_for_space(&self, space: SpaceId) -> (view: Option<ViewId>)
        ensures
            view == view_at(self.model().nodes, space),
    {
        view_for_space(&self.scene, space)
    }
}

} // verus!
