//! The layout of a workspace: a tree of spaces whose leaves show views.

use crate::protocol::{SpaceId, ViewId};
use vstd::prelude::*;

verus! {

/// What a space is: a leaf that shows a view, or a container of other spaces.
#[derive(Clone, Copy, Debug, PartialEq, Eq, Structural)]
pub enum SpaceKind {
    Content { view: ViewId, focusable: bool },
    Container,
}

/// How large a space is.
#[derive(Clone, Copy, Debug, PartialEq, Eq, Structural)]
pub enum Sizing {
    Fixed(i32),
    Grow(i32),
}

/// On which side of a space another one appears.
#[derive(Clone, Copy, Debug, PartialEq, Eq, Structural)]
pub enum SplitDirection {
    Left,
    Right,
    Up,
    Down,
}

/// A space of a scene, with its distance from the root.
#[derive(Clone, Copy, Debug, PartialEq, Eq, Structural)]
pub struct SceneNode {
    pub space: SpaceId,
    pub depth: usize,
    pub sizing: Sizing,
    pub kind: SpaceKind,
}

/// The size of a scene.
#[derive(Clone, Copy, Debug, PartialEq, Eq, Structural)]
pub struct SceneSize {
    pub width: i32,
    pub height: i32,
}

/// A tree of spaces, written down from the root as each space followed by those below it.
#[derive(Debug, PartialEq, Eq)]
pub struct Scene {
    pub size: SceneSize,
    pub nodes: Vec<SceneNode>,
}

impl Clone for Scene {
    fn clone(&self) -> (copy: Self)
        ensures
            copy.size == self.size,
            copy.nodes@ == self.nodes@,
    {
        let nodes = self.nodes.clone();
        assert(nodes@ =~= self.nodes@);
        Scene { size: self.size, nodes }
    }
}

/// A leaf: a space and the view that it shows.
#[derive(Clone, Copy, Debug, PartialEq, Eq, Structural)]
pub struct Leaf {
    pub space: SpaceId,
    pub view: ViewId,
}

/// Where a space first stands from index `i` on.
pub open spec fn index_from(nodes: Seq<SceneNode>, space: SpaceId, i: int) -> Option<int>
    decreases nodes.len() - i,
{
    if i >= nodes.len() {
        None
    } else if nodes[i].space == space {
        Some(i)
    } else {
        index_from(nodes, space, i + 1)
    }
}

/// Where a space stands.
pub open spec fn index_of(nodes: Seq<SceneNode>, space: SpaceId) -> Option<int> {
    index_from(nodes, space, 0)
}

/// The view that a space shows, where it is a leaf.
pub open spec fn view_at(nodes: Seq<SceneNode>, space: SpaceId) -> Option<ViewId> {
    match index_of(nodes, space) {
        Some(i) => match nodes[i].kind {
            SpaceKind::Content { view, focusable } => Some(view),
            SpaceKind::Container => None,
        },
        None => None,
    }
}

/// Whether a space can have the focus, where it is a leaf.
pub open spec fn focusable_at(nodes: Seq<SceneNode>, space: SpaceId) -> Option<bool> {
    match index_of(nodes, space) {
        Some(i) => match nodes[i].kind {
            SpaceKind::Content { view, focusable } => Some(focusable),
            SpaceKind::Container => None,
        },
        None => None,
    }
}

/// The leaves, in their order.
pub open spec fn leaves(nodes: Seq<SceneNode>) -> Seq<Leaf>
    decreases nodes.len(),
{
    if nodes.len() == 0 {
        Seq::empty()
    } else {
        let before = leaves(nodes.drop_last());
        match nodes.last().kind {
            SpaceKind::Content { view, focusable } => before.push(
                Leaf { space: nodes.last().space, view },
            ),
            SpaceKind::Container => before,
        }
    }
}

/// The first index from `i` on whose space is not below one at `depth`.
pub open spec fn end_from(nodes: Seq<SceneNode>, depth: usize, i: int) -> int
    decreases nodes.len() - i,
{
    if i >= nodes.len() || nodes[i].depth <= depth {
        i
    } else {
        end_from(nodes, depth, i + 1)
    }
}

/// The space at index `i` and all that are below it.
pub open spec fn nodes_below(nodes: Seq<SceneNode>, i: int) -> Seq<SceneNode> {
    nodes.subrange(i, end_from(nodes, nodes[i].depth, i + 1))
}

/// The space that another one is directly in.
pub open spec fn parent_before(nodes: Seq<SceneNode>, depth: usize, i: int) -> Option<SpaceId>
    decreases i,
{
    if i <= 0 {
        None
    } else if nodes[i - 1].depth < depth {
        Some(nodes[i - 1].space)
    } else {
        parent_before(nodes, depth, i - 1)
    }
}

/// The space that a space is directly in.
pub open spec fn parent_at(nodes: Seq<SceneNode>, space: SpaceId) -> Option<SpaceId> {
    match index_of(nodes, space) {
        Some(i) => parent_before(nodes, nodes[i].depth, i),
        None => None,
    }
}

/// The first of the leaves, from index `i` on, that can have the focus in the scene.
pub open spec fn first_focusable(nodes: Seq<SceneNode>, list: Seq<Leaf>, i: int) -> Option<SpaceId>
    decreases list.len() - i,
{
    if i >= list.len() {
        None
    } else if focusable_at(nodes, list[i].space) == Some(true) {
        Some(list[i].space)
    } else {
        first_focusable(nodes, list, i + 1)
    }
}

/// The first space at or below another one that can have the focus.
pub open spec fn focus_below(nodes: Seq<SceneNode>, space: SpaceId) -> Option<SpaceId> {
    match index_of(nodes, space) {
        None => None,
        Some(i) => if focusable_at(nodes, space) == Some(true) {
            Some(space)
        } else {
            first_focusable(nodes, leaves(nodes_below(nodes, i)), 0)
        },
    }
}

/// Where the focus goes: to the preferred space or the first one below it, else it stays, else it
/// goes to the first space that can have it.
pub open spec fn focus_after(
    nodes: Seq<SceneNode>,
    previous: SpaceId,
    preferred: Option<SpaceId>,
) -> Option<SpaceId> {
    let wanted = match preferred {
        Some(space) => focus_below(nodes, space),
        None => None,
    };
    match wanted {
        Some(space) => Some(space),
        None => if focusable_at(nodes, previous) == Some(true) {
            Some(previous)
        } else {
            first_focusable(nodes, leaves(nodes), 0)
        },
    }
}

impl Scene {
    /// Where a space stands.
    pub fn index(&self, space: SpaceId) -> (index: Option<usize>)
        ensures
            match index {
                Some(i) => index_of(self.nodes@, space) == Some(i as int) && i < self.nodes@.len(),
                None => index_of(self.nodes@, space) is None,
            },
    {
        let mut i: usize = 0;
        while i < self.nodes.len()
            invariant
                i <= self.nodes.len(),
                index_of(self.nodes@, space) == index_from(self.nodes@, space, i as int),
            decreases self.nodes.len() - i,
        {
            if self.nodes[i].space == space {
                return Some(i);
            }
            i = i + 1;
        }
        None
    }

    /// Whether the space is part of the scene.
    pub fn contains(&self, space: SpaceId) -> (contains: bool)
        ensures
            contains == (index_of(self.nodes@, space) is Some),
    {
        self.index(space).is_some()
    }

    /// The space that a space is directly in.
    pub fn parent(&self, space: SpaceId) -> (parent: Option<SpaceId>)
        ensures
            parent == parent_at(self.nodes@, space),
    {
        match self.index(space) {
            Some(index) => {
                let depth = self.nodes[index].depth;
                let mut i: usize = index;
                while i > 0
                    invariant
                        i <= self.nodes.len(),
                        parent_at(self.nodes@, space) == parent_before(
                            self.nodes@,
                            depth,
                            i as int,
                        ),
                    decreases i,
                {
                    if self.nodes[i - 1].depth < depth {
                        return Some(self.nodes[i - 1].space);
                    }
                    i = i - 1;
                }
                None
            },
            None => None,
        }
    }
}

/// The leaves among the nodes from `start` up to `end`, in their order.
fn leaves_between(scene: &Scene, start: usize, end: usize) -> (list: Vec<Leaf>)
    requires
        start <= end <= scene.nodes@.len(),
    ensures
        list@ == leaves(scene.nodes@.subrange(start as int, end as int)),
{
    let ghost part = scene.nodes@.subrange(start as int, end as int);
    let mut list: Vec<Leaf> = Vec::new();
    let mut i: usize = start;
    while i < end
        invariant
            start <= i <= end,
            end <= scene.nodes@.len(),
            part == scene.nodes@.subrange(start as int, end as int),
            list@ == leaves(part.take(i - start)),
        decreases end - i,
    {
        let node = &scene.nodes[i];
        assert(part.take(i + 1 - start).drop_last() =~= part.take(i - start));
        assert(part[i - start] == *node);
        if let SpaceKind::Content { view, .. } = node.kind {
            list.push(Leaf { space: node.space, view });
        }
        i = i + 1;
    }
    assert(part.take(i - start) =~= part);
    list
}

/// The leaves of a scene, in their order.
pub fn scene_views(scene: &Scene) -> (list: Vec<Leaf>)
    ensures
        list@ == leaves(scene.nodes@),
{
    assert(scene.nodes@.subrange(0, scene.nodes@.len() as int) =~= scene.nodes@);
    leaves_between(scene, 0, scene.nodes.len())
}

/// The view that a space shows, where it is a leaf.
pub fn view_for_space(scene: &Scene, space: SpaceId) -> (view: Option<ViewId>)
    ensures
        view == view_at(scene.nodes@, space),
{
    match scene.index(space) {
        Some(i) => match scene.nodes[i].kind {
            SpaceKind::Content { view, .. } => Some(view),
            SpaceKind::Container => None,
        },
        None => None,
    }
}

/// Whether a space can have the focus, where it is a leaf.
pub fn view_space_focusable(scene: &Scene, space: SpaceId) -> (focusable: Option<bool>)
    ensures
        focusable == focusable_at(scene.nodes@, space),
{
    match scene.index(space) {
        Some(i) => match scene.nodes[i].kind {
            SpaceKind::Content { focusable, .. } => Some(focusable),
            SpaceKind::Container => None,
        },
        None => None,
    }
}

/// How many leaves can have the focus.
pub open spec fn focusable_count(nodes: Seq<SceneNode>, list: Seq<Leaf>) -> int
    decreases list.len(),
{
    if list.len() == 0 {
        0
    } else {
        focusable_count(nodes, list.drop_last()) + if focusable_at(nodes, list.last().space)
            == Some(true) {
            1int
        } else {
            0
        }
    }
}

/// How many leaves can have the focus.
pub fn focusable_view_count(scene: &Scene) -> (count: usize)
    ensures
        count == focusable_count(scene.nodes@, leaves(scene.nodes@)),
{
    let list = scene_views(scene);
    let ghost all = list@;
    let mut count: usize = 0;
    let mut i: usize = 0;
    while i < list.len()
        invariant
            i <= list.len(),
            all == list@,
            count == focusable_count(scene.nodes@, all.take(i as int)),
            count <= i,
        decreases list.len() - i,
    {
        assert(all.take(i + 1).drop_last() =~= all.take(i as int));
        if view_space_focusable(scene, list[i].space) == Some(true) {
            count = count + 1;
        }
        i = i + 1;
    }
    assert(all.take(i as int) =~= all);
    count
}

/// The first of the leaves that can have the focus in the scene.
fn find_focusable(scene: &Scene, list: &Vec<Leaf>) -> (space: Option<SpaceId>)
    ensures
        space == first_focusable(scene.nodes@, list@, 0),
{
    let mut i: usize = 0;
    while i < list.len()
        invariant
            i <= list.len(),
            first_focusable(scene.nodes@, list@, 0) == first_focusable(
                scene.nodes@,
                list@,
                i as int,
            ),
        decreases list.len() - i,
    {
        if view_space_focusable(scene, list[i].space) == Some(true) {
            return Some(list[i].space);
        }
        i = i + 1;
    }
    None
}

/// The first space at or below another one that can have the focus.
pub fn first_focusable_at_or_below(scene: &Scene, space: SpaceId) -> (found: Option<SpaceId>)
    ensures
        found == focus_below(scene.nodes@, space),
{
    match scene.index(space) {
        None => None,
        Some(index) => {
            if view_space_focusable(scene, space) == Some(true) {
                return Some(space);
            }
            let depth = scene.nodes[index].depth;
            let count = scene.nodes.len();
            let mut end: usize = index + 1;
            while end < count && scene.nodes[end].depth > depth
                invariant
                    count == scene.nodes@.len(),
                    index < end <= count,
                    end_from(scene.nodes@, depth, index + 1) == end_from(
                        scene.nodes@,
                        depth,
                        end as int,
                    ),
                decreases count - end,
            {
                end = end + 1;
            }
            let list = leaves_between(scene, index, end);
            find_focusable(scene, &list)
        },
    }
}

/// Where the focus goes.
pub fn resolve_focus(scene: &Scene, previous: SpaceId, preferred: Option<SpaceId>) -> (focus: Option<
    SpaceId,
>)
    ensures
        focus == focus_after(scene.nodes@, previous, preferred),
{
    if let Some(space) = preferred {
        if let Some(found) = first_focusable_at_or_below(scene, space) {
            return Some(found);
        }
    }
    if view_space_focusable(scene, previous) == Some(true) {
        return Some(previous);
    }
    find_focusable(scene, &scene_views(scene))
}

proof fn lemma_first_focusable(nodes: Seq<SceneNode>, list: Seq<Leaf>, i: int)
    ensures
        first_focusable(nodes, list, i) matches Some(space) ==> focusable_at(nodes, space) == Some(
            true,
        ),
        first_focusable(nodes, list, i) is None ==> forall|j: int|
            i <= j < list.len() ==> focusable_at(nodes, (#[trigger] list[j]).space) != Some(true),
    decreases list.len() - i,
{
    if i < list.len() {
        lemma_first_focusable(nodes, list, i + 1);
    }
}

/// The focus always goes to a space that can have it, and is only lost where no leaf can.
pub proof fn law_focus_is_focusable(
    nodes: Seq<SceneNode>,
    previous: SpaceId,
    preferred: Option<SpaceId>,
)
    ensures
        focus_after(nodes, previous, preferred) matches Some(space) ==> focusable_at(nodes, space)
            == Some(true),
        focus_after(nodes, previous, preferred) is None ==> forall|i: int|
            0 <= i < leaves(nodes).len() ==> focusable_at(
                nodes,
                (#[trigger] leaves(nodes)[i]).space,
            ) != Some(true),
{
    lemma_first_focusable(nodes, leaves(nodes), 0);
    if let Some(space) = preferred {
        if let Some(i) = index_of(nodes, space) {
            lemma_first_focusable(nodes, leaves(nodes_below(nodes, i)), 0);
        }
    }
}

/// A preferred space that can have the focus gets it; one that cannot does not keep it.
pub proof fn law_preferred_focus(nodes: Seq<SceneNode>, previous: SpaceId, preferred: SpaceId)
    ensures
        focusable_at(nodes, preferred) == Some(true) ==> focus_after(
            nodes,
            previous,
            Some(preferred),
        ) == Some(preferred),
        focusable_at(nodes, preferred) == Some(false) ==> focus_after(
            nodes,
            previous,
            Some(preferred),
        ) != Some(preferred),
{
    law_focus_is_focusable(nodes, previous, Some(preferred));
}

proof fn lemma_index_within(nodes: Seq<SceneNode>, space: SpaceId, i: int)
    requires
        0 <= i,
    ensures
        index_from(nodes, space, i) matches Some(k) ==> i <= k < nodes.len() && nodes[k].space
            == space,
    decreases nodes.len() - i,
{
    if i < nodes.len() && nodes[i].space != space {
        lemma_index_within(nodes, space, i + 1);
    }
}

proof fn lemma_leaf_listed(nodes: Seq<SceneNode>, i: int, view: ViewId, focusable: bool)
    requires
        0 <= i < nodes.len(),
        nodes[i].kind == (SpaceKind::Content { view, focusable }),
    ensures
        leaves(nodes).contains((Leaf { space: nodes[i].space, view })),
    decreases nodes.len(),
{
    let leaf = Leaf { space: nodes[i].space, view };
    let shorter = nodes.drop_last();
    let all = leaves(nodes);
    if i < shorter.len() {
        lemma_leaf_listed(shorter, i, view, focusable);
        let k = choose|k: int| 0 <= k < leaves(shorter).len() && leaves(shorter)[k] == leaf;
        assert(all[k] == leaf);
    } else {
        assert(all[all.len() - 1] == leaf);
    }
}

/// What shows a view is among the leaves.
pub proof fn lemma_shown_is_leaf(nodes: Seq<SceneNode>, space: SpaceId, view: ViewId)
    requires
        view_at(nodes, space) == Some(view),
    ensures
        leaves(nodes).contains((Leaf { space, view })),
{
    lemma_index_within(nodes, space, 0);
    let i = index_of(nodes, space)->0;
    lemma_leaf_listed(nodes, i, view, focusable_at(nodes, space)->0);
}

/// The outcome of a split: the space that was added.
#[derive(Clone, Copy, Debug, PartialEq, Eq, Structural)]
pub struct SplitResult {
    pub new_space: SpaceId,
}

/// The outcome of adding a view with a status bar of its own.
#[derive(Clone, Copy, Debug, PartialEq, Eq, Structural)]
pub struct StatusPane {
    pub editor_space: SpaceId,
    pub status_space: SpaceId,
}

/// The outcome of closing a space: a space next to it that is still there.
#[derive(Clone, Copy, Debug, PartialEq, Eq, Structural)]
pub struct CloseResult {
    pub surviving_neighbor: Option<SpaceId>,
}

/// The scene that a workspace starts with, and where its view and its status bar are shown.
pub struct EditorScene {
    pub scene: Scene,
    pub editor_space: SpaceId,
    pub status_space: SpaceId,
}

/// Why a scene cannot be changed.
#[derive(Clone, Copy, Debug, PartialEq, Eq, Structural)]
pub enum SceneError {
    /// The space is not a leaf of the scene.
    ExpectedContentLeaf(SpaceId),
    /// The space is not part of the scene.
    UnknownSpace(SpaceId),
    /// The scene is not in order.
    InvalidTree,
}

/// A scene as a builder takes it and gives it back.
pub struct SceneModel {
    pub nodes: Seq<SceneNode>,
    pub size: SceneSize,
}

impl Scene {
    /// Everything that the scene holds.
    pub open spec fn model(self) -> SceneModel {
        SceneModel { nodes: self.nodes@, size: self.size }
    }
}

/// Something that a workspace asks of the builder of its scenes.
#[derive(Clone, Copy, Debug, PartialEq, Eq, Structural)]
pub enum SceneRequest {
    Split { target: SpaceId, view: ViewId, focusable: bool, direction: SplitDirection },
    SplitPane {
        target: SpaceId,
        view: ViewId,
        status: ViewId,
        focusable: bool,
        direction: SplitDirection,
    },
    Wrap { target: SpaceId, view: ViewId },
    Attach { view: ViewId },
    Close { space: SpaceId },
    Replace { target: SpaceId, view: ViewId, focusable: bool },
    Size { target: SpaceId, sizing: Sizing },
}

/// What a builder answers.
pub enum SceneAnswer {
    /// The space that was added.
    Split(SpaceId),
    /// The leaf and the status bar that belong together.
    Pane(StatusPane),
    /// The space of the one status bar.
    Attached(SpaceId),
    /// A space next to the closed one that is still there.
    Closed(Option<SpaceId>),
    /// It was done.
    Done,
    /// It was not done.
    Refused(SceneError),
}

/// The answer to a split.
pub open spec fn split_answer(result: Result<SplitResult, SceneError>) -> SceneAnswer {
    match result {
        Ok(split) => SceneAnswer::Split(split.new_space),
        Err(error) => SceneAnswer::Refused(error),
    }
}

/// The answer where a leaf and a status bar come together.
pub open spec fn pane_answer(result: Result<StatusPane, SceneError>) -> SceneAnswer {
    match result {
        Ok(pane) => SceneAnswer::Pane(pane),
        Err(error) => SceneAnswer::Refused(error),
    }
}

/// The answer where the one status bar comes in.
pub open spec fn attach_answer(result: Result<SpaceId, SceneError>) -> SceneAnswer {
    match result {
        Ok(space) => SceneAnswer::Attached(space),
        Err(error) => SceneAnswer::Refused(error),
    }
}

/// The answer where a space is closed.
pub open spec fn close_answer(result: Result<CloseResult, SceneError>) -> SceneAnswer {
    match result {
        Ok(closed) => SceneAnswer::Closed(closed.surviving_neighbor),
        Err(error) => SceneAnswer::Refused(error),
    }
}

/// The answer where nothing is told but that it was done.
pub open spec fn plain_answer(result: Result<(), SceneError>) -> SceneAnswer {
    match result {
        Ok(_) => SceneAnswer::Done,
        Err(error) => SceneAnswer::Refused(error),
    }
}

/// A request and its answer, with the scene before and after it.
pub struct Exchange {
    pub request: SceneRequest,
    pub before: SceneModel,
    pub after: SceneModel,
    pub answer: SceneAnswer,
}

/// Changes scenes and gives out the identities of their spaces. A builder may say what it answers,
/// with `forks`, `opens` and `answers`; one that does not say may answer anything. A workspace
/// relies on nothing about that: it checks every scene before it shows it. But what it tells of a
/// builder's answers it has been answered.
pub trait SceneBuilder: Sized {
    /// The builder may go on as another one from here.
    open spec fn forks(self, copy: Self) -> bool {
        true
    }

    /// The builder may start with that scene, and be another one after it.
    open spec fn opens(
        self,
        width: i32,
        height: i32,
        editor: ViewId,
        scene: SceneModel,
        editor_space: SpaceId,
        status_space: SpaceId,
        after: Self,
    ) -> bool {
        true
    }

    /// The builder may answer like that, and be another one after it.
    open spec fn answers(self, exchange: Exchange, after: Self) -> bool {
        true
    }

    /// Another builder that goes on from here.
    fn fork(&self) -> (copy: Self)
        ensures
            self.forks(copy),
    ;

    /// The scene of a workspace with one view and a status bar.
    fn editor_scene(&mut self, width: i32, height: i32, editor: ViewId) -> (opened: EditorScene)
        ensures
            old(self).opens(
                width,
                height,
                editor,
                opened.scene.model(),
                opened.editor_space,
                opened.status_space,
                *final(self),
            ),
    ;

    /// Adds a leaf next to a space.
    fn split(
        &mut self,
        scene: &mut Scene,
        target: SpaceId,
        view: ViewId,
        focusable: bool,
        direction: SplitDirection,
    ) -> (result: Result<SplitResult, SceneError>)
        ensures
            old(self).answers(
                Exchange {
                    request: SceneRequest::Split { target, view, focusable, direction },
                    before: old(scene).model(),
                    after: final(scene).model(),
                    answer: split_answer(result),
                },
                *final(self),
            ),
    ;

    /// Adds a leaf with a status bar next to another such pair.
    fn split_pane(
        &mut self,
        scene: &mut Scene,
        target: SpaceId,
        view: ViewId,
        status: ViewId,
        focusable: bool,
        direction: SplitDirection,
    ) -> (result: Result<StatusPane, SceneError>)
        ensures
            old(self).answers(
                Exchange {
                    request: SceneRequest::SplitPane { target, view, status, focusable, direction },
                    before: old(scene).model(),
                    after: final(scene).model(),
                    answer: pane_answer(result),
                },
                *final(self),
            ),
    ;

    /// Puts a leaf together with a status bar.
    fn wrap_with_status(&mut self, scene: &mut Scene, target: SpaceId, status: ViewId) -> (result:
        Result<StatusPane, SceneError>)
        ensures
            old(self).answers(
                Exchange {
                    request: SceneRequest::Wrap { target, view: status },
                    before: old(scene).model(),
                    after: final(scene).model(),
                    answer: pane_answer(result),
                },
                *final(self),
            ),
    ;

    /// Adds the one status bar of the whole scene.
    fn attach_global_status(&mut self, scene: &mut Scene, view: ViewId) -> (result: Result<
        SpaceId,
        SceneError,
    >)
        ensures
            old(self).answers(
                Exchange {
                    request: SceneRequest::Attach { view },
                    before: old(scene).model(),
                    after: final(scene).model(),
                    answer: attach_answer(result),
                },
                *final(self),
            ),
    ;

    /// Takes a space away.
    fn close(&mut self, scene: &mut Scene, target: SpaceId) -> (result: Result<
        CloseResult,
        SceneError,
    >)
        ensures
            old(self).answers(
                Exchange {
                    request: SceneRequest::Close { space: target },
                    before: old(scene).model(),
                    after: final(scene).model(),
                    answer: close_answer(result),
                },
                *final(self),
            ),
    ;

    /// Shows another view in a leaf.
    fn replace_view(
        &mut self,
        scene: &mut Scene,
        target: SpaceId,
        view: ViewId,
        focusable: bool,
    ) -> (result: Result<(), SceneError>)
        ensures
            old(self).answers(
                Exchange {
                    request: SceneRequest::Replace { target, view, focusable },
                    before: old(scene).model(),
                    after: final(scene).model(),
                    answer: plain_answer(result),
                },
                *final(self),
            ),
    ;

    /// Changes how large a space is.
    fn set_sizing(&mut self, scene: &mut Scene, target: SpaceId, sizing: Sizing) -> (result: Result<
        (),
        SceneError,
    >)
        ensures
            old(self).answers(
                Exchange {
                    request: SceneRequest::Size { target, sizing },
                    before: old(scene).model(),
                    after: final(scene).model(),
                    answer: plain_answer(result),
                },
                *final(self),
            ),
    ;
}

} // verus!
