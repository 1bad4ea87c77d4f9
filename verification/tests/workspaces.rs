use vell::protocol::{ContentId, Revision, Selection, SpaceId, TextOffset, ViewId};
use vell::view::compound::{
    CompoundViewDefinition, CompoundViewDirection, ViewChildBinding, ViewChildDefinition,
    ViewDefinitionOwner,
};
use vell::view::content_state::{ContentViewState, Selections};
use vell::view::definition::{
    BindingKey, ViewDefinition, ViewDefinitionId, BUFFER_VIEW_DEFINITION, DIFF_VIEW_DEFINITION,
    DOCUMENT_BINDING, LEFT_BINDING, RIGHT_BINDING,
};
use vell::view::extension::definition::ViewExtensionPaneSide;
use vell::view::instance::View;
use vell::view::layout::{LayoutError, StatusBarPlacement, WorkspaceFault};
use vell::view::panes::{BODY_PANE, STATUS_PANE};
use vell::view::scene::{
    focusable_view_count, resolve_focus, scene_views, view_for_space, CloseResult, EditorScene,
    Scene, SceneBuilder, SceneError, SceneNode, SceneSize, Sizing, SpaceKind, SplitDirection,
    SplitResult, StatusPane,
};
use vell::view::workspace::ViewWorkspace;

/// A builder of scenes that are lists of nodes, each container before what is in it.
struct Tree {
    next: u64,
    failing: bool,
}

impl Tree {
    fn fresh(&mut self) -> SpaceId {
        let id = SpaceId(self.next);
        self.next += 1;
        id
    }

    fn at(scene: &Scene, space: SpaceId) -> Result<usize, SceneError> {
        scene
            .nodes
            .iter()
            .position(|node| node.space == space)
            .ok_or(SceneError::UnknownSpace(space))
    }

    fn end(scene: &Scene, index: usize) -> usize {
        let depth = scene.nodes[index].depth;
        let mut end = index + 1;
        while end < scene.nodes.len() && scene.nodes[end].depth > depth {
            end += 1;
        }
        end
    }

    /// Puts a space into a new container, with other nodes before or after it.
    fn wrap(&mut self, scene: &mut Scene, target: SpaceId, others: Vec<SceneNode>, first: bool)
        -> Result<(), SceneError> {
        let index = Tree::at(scene, target)?;
        let end = Tree::end(scene, index);
        let depth = scene.nodes[index].depth;
        let sizing = scene.nodes[index].sizing;
        let mut moved: Vec<SceneNode> = scene.nodes[index..end].to_vec();
        for node in &mut moved {
            node.depth += 1;
        }
        moved[0].sizing = Sizing::Grow(1);
        let mut added = others;
        for node in &mut added {
            node.depth += depth + 1;
        }
        let container = SceneNode {
            space: self.fresh(),
            depth,
            sizing,
            kind: SpaceKind::Container,
        };
        let mut replacement = vec![container];
        if first {
            replacement.extend(added);
            replacement.extend(moved);
        } else {
            replacement.extend(moved);
            replacement.extend(added);
        }
        scene.nodes.splice(index..end, replacement);
        Ok(())
    }

    fn leaf(space: SpaceId, depth: usize, view: ViewId, focusable: bool) -> SceneNode {
        SceneNode {
            space,
            depth,
            sizing: Sizing::Grow(1),
            kind: SpaceKind::Content { view, focusable },
        }
    }

    fn status(space: SpaceId, depth: usize, view: ViewId) -> SceneNode {
        SceneNode {
            space,
            depth,
            sizing: Sizing::Fixed(1),
            kind: SpaceKind::Content {
                view,
                focusable: false,
            },
        }
    }

    fn before(direction: SplitDirection) -> bool {
        matches!(direction, SplitDirection::Left | SplitDirection::Up)
    }
}

impl SceneBuilder for Tree {
    fn fork(&self) -> Self {
        Tree {
            next: self.next,
            failing: self.failing,
        }
    }

    fn editor_scene(&mut self, width: i32, height: i32, editor: ViewId) -> EditorScene {
        let root = self.fresh();
        let editor_space = self.fresh();
        let status_space = self.fresh();
        let status = Tree::status(status_space, 1, editor);
        EditorScene {
            scene: Scene {
                size: SceneSize { width, height },
                nodes: vec![
                    SceneNode {
                        space: root,
                        depth: 0,
                        sizing: Sizing::Grow(1),
                        kind: SpaceKind::Container,
                    },
                    Tree::leaf(editor_space, 1, editor, true),
                    status,
                ],
            },
            editor_space,
            status_space,
        }
    }

    fn split(
        &mut self,
        scene: &mut Scene,
        target: SpaceId,
        view: ViewId,
        focusable: bool,
        direction: SplitDirection,
    ) -> Result<SplitResult, SceneError> {
        if self.failing {
            return Err(SceneError::InvalidTree);
        }
        let new_space = self.fresh();
        let leaf = Tree::leaf(new_space, 0, view, focusable);
        self.wrap(scene, target, vec![leaf], Tree::before(direction))?;
        Ok(SplitResult { new_space })
    }

    fn split_pane(
        &mut self,
        scene: &mut Scene,
        target: SpaceId,
        view: ViewId,
        status: ViewId,
        focusable: bool,
        direction: SplitDirection,
    ) -> Result<StatusPane, SceneError> {
        let pane = self.fresh();
        let editor_space = self.fresh();
        let status_space = self.fresh();
        let nodes = vec![
            SceneNode {
                space: pane,
                depth: 0,
                sizing: Sizing::Grow(1),
                kind: SpaceKind::Container,
            },
            Tree::leaf(editor_space, 1, view, focusable),
            Tree::status(status_space, 1, status),
        ];
        self.wrap(scene, target, nodes, Tree::before(direction))?;
        Ok(StatusPane {
            editor_space,
            status_space,
        })
    }

    fn wrap_with_status(
        &mut self,
        scene: &mut Scene,
        target: SpaceId,
        status: ViewId,
    ) -> Result<StatusPane, SceneError> {
        let status_space = self.fresh();
        let leaf = Tree::status(status_space, 0, status);
        self.wrap(scene, target, vec![leaf], false)?;
        Ok(StatusPane {
            editor_space: target,
            status_space,
        })
    }

    fn attach_global_status(
        &mut self,
        scene: &mut Scene,
        view: ViewId,
    ) -> Result<SpaceId, SceneError> {
        let space = self.fresh();
        scene.nodes.push(Tree::status(space, 1, view));
        Ok(space)
    }

    fn close(&mut self, scene: &mut Scene, target: SpaceId) -> Result<CloseResult, SceneError> {
        let index = Tree::at(scene, target)?;
        let end = Tree::end(scene, index);
        let depth = scene.nodes[index].depth;
        if depth == 0 {
            return Err(SceneError::InvalidTree);
        }
        let mut parent = index - 1;
        while scene.nodes[parent].depth + 1 != depth {
            parent -= 1;
        }
        scene.nodes.drain(index..end);
        let parent_end = Tree::end(scene, parent);
        let neighbor = scene.nodes[parent + 1..parent_end]
            .iter()
            .find(|node| matches!(node.kind, SpaceKind::Content { .. }))
            .map(|node| node.space);
        let children = scene.nodes[parent + 1..parent_end]
            .iter()
            .filter(|node| node.depth == depth)
            .count();
        if children == 1 && parent > 0 {
            for node in &mut scene.nodes[parent + 1..parent_end] {
                node.depth -= 1;
            }
            scene.nodes.remove(parent);
        }
        Ok(CloseResult {
            surviving_neighbor: neighbor,
        })
    }

    fn replace_view(
        &mut self,
        scene: &mut Scene,
        target: SpaceId,
        view: ViewId,
        focusable: bool,
    ) -> Result<(), SceneError> {
        let index = Tree::at(scene, target)?;
        scene.nodes[index].kind = SpaceKind::Content { view, focusable };
        Ok(())
    }

    fn set_sizing(
        &mut self,
        scene: &mut Scene,
        target: SpaceId,
        sizing: Sizing,
    ) -> Result<(), SceneError> {
        let index = Tree::at(scene, target)?;
        scene.nodes[index].sizing = sizing;
        Ok(())
    }
}

const EDITOR: SpaceId = SpaceId(1);
const STATUS: SpaceId = SpaceId(2);

fn buffer(content: u64) -> View {
    View::buffer(ContentId(content), ContentViewState::buffer())
}

fn workspace() -> ViewWorkspace<Tree> {
    let builder = Tree {
        next: 0,
        failing: false,
    };
    ViewWorkspace::editor(builder, 80, 24, ViewId(0), buffer(10), 1)
        .ok()
        .unwrap()
}

fn split(workspace: &mut ViewWorkspace<Tree>, target: SpaceId, content: u64) -> (ViewId, SpaceId) {
    let (view, split) = workspace
        .split(target, buffer(content), true, SplitDirection::Right, true)
        .unwrap();
    (view, split.new_space)
}

fn bare(definition: &str, left: u64, right: u64) -> View {
    let definition = ViewDefinition::new(
        ViewDefinitionId::new(definition),
        vec![BindingKey::new(LEFT_BINDING), BindingKey::new(RIGHT_BINDING)],
    )
    .unwrap();
    View::with_definition(
        &definition,
        vec![
            (BindingKey::new(LEFT_BINDING), ContentId(left)),
            (BindingKey::new(RIGHT_BINDING), ContentId(right)),
        ],
        None,
    )
    .unwrap()
}

fn pair() -> CompoundViewDefinition {
    let child = |key: &str| {
        ViewChildDefinition::new(
            key,
            ViewDefinitionId::new(BUFFER_VIEW_DEFINITION),
            vec![ViewChildBinding::new(DOCUMENT_BINDING, key)],
        )
    };
    CompoundViewDefinition::new(
        ViewDefinitionId::new(DIFF_VIEW_DEFINITION),
        ViewDefinitionOwner::new("core"),
        vec![BindingKey::new(LEFT_BINDING), BindingKey::new(RIGHT_BINDING)],
        CompoundViewDirection::Horizontal,
        [child(LEFT_BINDING), child(RIGHT_BINDING)],
    )
    .unwrap()
}

#[test]
fn a_new_workspace_shows_one_view_and_its_status_bar() {
    let workspace = workspace();
    assert_eq!(workspace.focused(), EDITOR);
    assert_eq!(workspace.scene_revision(), Revision(0));
    assert_eq!(workspace.next_view_id(), ViewId(1));
    assert_eq!(workspace.scene().size, SceneSize { width: 80, height: 24 });
    assert_eq!(workspace.views(), vec![ViewId(0)]);
    let bar = workspace.status_bar_for_view(ViewId(0)).unwrap();
    assert_eq!(bar.space, STATUS);
    assert_eq!(bar.target_view, ViewId(0));
    assert_eq!(bar.content, ContentId(10));
    assert_eq!(workspace.status_bars_for_content(ContentId(10)), vec![bar]);
    assert_eq!(focusable_view_count(workspace.scene()), 1);
    assert!(workspace.validate().is_ok());
}

#[test]
fn splitting_shows_the_view_and_moves_the_status_bar() {
    let mut workspace = workspace();
    let (view, space) = split(&mut workspace, EDITOR, 11);
    assert_eq!(view, ViewId(1));
    assert_eq!(view_for_space(workspace.scene(), space), Some(view));
    assert_eq!(workspace.focused(), space);
    assert_eq!(workspace.body_space_for_view(view), Some(space));
    assert_eq!(workspace.status_bar_for_view(view).unwrap().target_view, view);
    assert_eq!(workspace.view_for_space(STATUS), Some(view));
    assert_eq!(workspace.scene_revision(), Revision(1));
    let old = workspace.view(ViewId(0)).unwrap();
    assert_eq!(old.panes().space_for_key(STATUS_PANE), None);
}

#[test]
fn splitting_a_status_bar_is_refused_and_changes_nothing() {
    let mut workspace = workspace();
    assert_eq!(
        workspace.split(STATUS, buffer(11), true, SplitDirection::Down, true).err(),
        Some(LayoutError::StatusBarSpace(STATUS))
    );
    assert_eq!(
        workspace.split(SpaceId(99), buffer(11), true, SplitDirection::Down, true).err(),
        Some(LayoutError::Scene(SceneError::ExpectedContentLeaf(SpaceId(99))))
    );
    assert_eq!(workspace.next_view_id(), ViewId(1));
    assert_eq!(workspace.scene_revision(), Revision(0));
}

#[test]
fn a_builder_that_fails_changes_nothing() {
    let builder = Tree {
        next: 0,
        failing: true,
    };
    let mut workspace = ViewWorkspace::editor(builder, 80, 24, ViewId(0), buffer(10), 1)
        .ok()
        .unwrap();
    assert_eq!(
        workspace.split(EDITOR, buffer(11), true, SplitDirection::Down, true).err(),
        Some(LayoutError::Scene(SceneError::InvalidTree))
    );
    assert_eq!(workspace.views(), vec![ViewId(0)]);
    assert_eq!(workspace.next_view_id(), ViewId(1));
    assert!(workspace.validate().is_ok());
}

#[test]
fn focus_moves_to_focusable_spaces_only() {
    let mut workspace = workspace();
    let (view, space) = split(&mut workspace, EDITOR, 11);
    assert_eq!(workspace.focus(STATUS), Err(LayoutError::NoFocusableSpace));
    assert_eq!(workspace.focus(space), Ok(false));
    assert_eq!(workspace.focus(EDITOR), Ok(true));
    assert_eq!(workspace.focused(), EDITOR);
    assert_eq!(workspace.view_for_space(STATUS), Some(ViewId(0)));
    assert_eq!(
        workspace.view(view).unwrap().panes().space_for_key(STATUS_PANE),
        None
    );
    assert!(workspace.is_focusable(space));
    assert!(!workspace.is_focusable(STATUS));
}

#[test]
fn focus_prefers_the_wanted_space_and_falls_back() {
    let mut workspace = workspace();
    let (_, space) = split(&mut workspace, EDITOR, 11);
    let scene = workspace.scene();
    assert_eq!(resolve_focus(scene, EDITOR, Some(space)), Some(space));
    assert_eq!(resolve_focus(scene, EDITOR, Some(STATUS)), Some(EDITOR));
    assert_eq!(resolve_focus(scene, EDITOR, None), Some(EDITOR));
    assert_eq!(resolve_focus(scene, SpaceId(99), None), Some(EDITOR));
    assert_eq!(scene_views(scene).len(), 3);
}

#[test]
fn closing_takes_the_view_out_and_moves_the_focus() {
    let mut workspace = workspace();
    let (view, space) = split(&mut workspace, EDITOR, 11);
    let mutation = workspace.close(space).ok().unwrap();
    assert_eq!(mutation.removed.len(), 1);
    assert_eq!(mutation.removed[0].id, view);
    assert_eq!(mutation.output.surviving_neighbor, Some(EDITOR));
    assert_eq!(workspace.focused(), EDITOR);
    assert_eq!(workspace.views(), vec![ViewId(0)]);
    assert_eq!(workspace.view_for_space(STATUS), Some(ViewId(0)));
    assert_eq!(workspace.scene_revision(), Revision(2));
}

#[test]
fn the_last_focusable_view_stays() {
    let mut workspace = workspace();
    assert_eq!(
        workspace.validate_close(EDITOR),
        Err(LayoutError::WouldRemoveLastFocusable(EDITOR))
    );
    assert_eq!(
        workspace.close(EDITOR).err(),
        Some(LayoutError::WouldRemoveLastFocusable(EDITOR))
    );
    assert_eq!(workspace.close(STATUS).err(), Some(LayoutError::StatusBarSpace(STATUS)));
}

#[test]
fn replacing_shows_another_view_in_the_same_space() {
    let mut workspace = workspace();
    let mutation = workspace.replace(EDITOR, buffer(12), true).ok().unwrap();
    assert_eq!(mutation.output, ViewId(1));
    assert_eq!(mutation.removed[0].id, ViewId(0));
    assert_eq!(workspace.focused(), EDITOR);
    assert_eq!(workspace.view_for_space(EDITOR), Some(ViewId(1)));
    assert_eq!(workspace.view_for_space(STATUS), Some(ViewId(1)));
    assert_eq!(workspace.views(), vec![ViewId(1)]);
    assert_eq!(
        workspace.replace(EDITOR, buffer(13), false).err(),
        Some(LayoutError::NoFocusableSpace)
    );
}

#[test]
fn status_bars_can_be_spread_and_gathered() {
    let mut workspace = workspace();
    let (view, space) = split(&mut workspace, EDITOR, 11);
    workspace.set_status_bar_placement(StatusBarPlacement::PerPane).unwrap();
    assert_eq!(workspace.status_bar_placement(), StatusBarPlacement::PerPane);
    let first = workspace.status_bar_for_view(ViewId(0)).unwrap();
    let second = workspace.status_bar_for_view(view).unwrap();
    assert_ne!(first.space, second.space);
    assert_eq!(first.target_view, ViewId(0));
    assert_eq!(second.target_view, view);
    let (third, _) = split(&mut workspace, space, 12);
    assert_eq!(workspace.status_bar_for_view(third).unwrap().target_view, third);

    let replaced = workspace.replace(EDITOR, buffer(13), true).ok().unwrap().output;
    assert_eq!(workspace.status_bar_for_view(replaced).unwrap().space, first.space);
    assert!(workspace.status_bar_for_view(ViewId(0)).is_none());

    let revision = workspace.scene_revision();
    workspace.set_status_bar_placement(StatusBarPlacement::PerPane).unwrap();
    assert_eq!(workspace.scene_revision(), revision);
    workspace.set_status_bar_placement(StatusBarPlacement::Global).unwrap();
    let focused = workspace.view_for_space(workspace.focused()).unwrap();
    let bar = workspace.status_bar_for_view(replaced).unwrap();
    assert_eq!(bar.target_view, focused);
    assert_eq!(workspace.view_for_space(bar.space), Some(focused));
}

#[test]
fn status_bars_can_be_hidden() {
    let mut workspace = workspace();
    workspace.set_status_bar_visible(None, false).unwrap();
    let sizing = |workspace: &ViewWorkspace<Tree>, space: SpaceId| {
        let index = workspace.scene().index(space).unwrap();
        workspace.scene().nodes[index].sizing
    };
    assert_eq!(sizing(&workspace, STATUS), Sizing::Fixed(0));
    workspace.set_status_bar_visible(None, true).unwrap();
    assert_eq!(sizing(&workspace, STATUS), Sizing::Fixed(1));
    workspace.set_status_bar_placement(StatusBarPlacement::PerPane).unwrap();
    assert_eq!(
        workspace.set_status_bar_visible(None, false),
        Err(LayoutError::NoStatusBar)
    );
    assert_eq!(
        workspace.set_status_bar_visible(Some(ViewId(77)), false),
        Err(LayoutError::NoStatusBar)
    );
    workspace.set_status_bar_visible(Some(ViewId(0)), false).unwrap();
}

#[test]
fn only_main_areas_can_be_sized() {
    let mut workspace = workspace();
    workspace.set_sizing(EDITOR, Sizing::Fixed(7)).unwrap();
    let index = workspace.scene().index(EDITOR).unwrap();
    assert_eq!(workspace.scene().nodes[index].sizing, Sizing::Fixed(7));
    assert_eq!(
        workspace.set_sizing(STATUS, Sizing::Grow(1)),
        Err(LayoutError::StatusBarSpace(STATUS))
    );
}

#[test]
fn resizing_counts_a_revision() {
    let mut workspace = workspace();
    workspace.resize(100, 40);
    assert_eq!(workspace.scene().size, SceneSize { width: 100, height: 40 });
    assert_eq!(workspace.scene_revision(), Revision(1));
}

#[test]
fn rebinding_keeps_scene_and_identity() {
    let mut workspace = workspace();
    let role = BindingKey::new(DOCUMENT_BINDING);
    let previous = workspace
        .rebind(ViewId(0), &role, ContentId(20), Some(ContentViewState::buffer()))
        .unwrap();
    assert_eq!(previous, ContentId(10));
    assert_eq!(workspace.view(ViewId(0)).unwrap().document_content(), Some(ContentId(20)));
    assert_eq!(workspace.scene_revision(), Revision(0));
    assert_eq!(
        workspace.rebind(ViewId(0), &role, ContentId(21), None),
        Err(LayoutError::InvalidWorkspace(WorkspaceFault::InvalidDocumentState(ViewId(0))))
    );
    let other = BindingKey::new("other");
    assert_eq!(
        workspace.rebind(ViewId(0), &other, ContentId(21), None),
        Err(LayoutError::MissingBinding {
            view: ViewId(0),
            binding: other,
        })
    );
    assert_eq!(
        workspace.rebind(ViewId(5), &role, ContentId(21), None),
        Err(LayoutError::MissingView(ViewId(5)))
    );
}

fn diff_workspace() -> (ViewWorkspace<Tree>, ViewId, [ViewId; 2]) {
    let mut workspace = workspace();
    let (_, space) = split(&mut workspace, EDITOR, 11);
    let mutation = workspace
        .replace_with_compound(
            space,
            bare(DIFF_VIEW_DEFINITION, 30, 31),
            [buffer(30), buffer(31)],
            SplitDirection::Right,
        )
        .ok()
        .unwrap();
    assert_eq!(mutation.removed.len(), 1);
    (workspace, mutation.output.parent, mutation.output.children)
}

#[test]
fn a_compound_view_comes_in_the_place_of_another() {
    let (workspace, parent, children) = diff_workspace();
    assert_eq!(workspace.scene_revision(), Revision(2));
    assert_eq!(workspace.view(parent).unwrap().children(), &children.to_vec());
    for child in children {
        let view = workspace.view(child).unwrap();
        assert_eq!(view.parent(), Some(parent));
        assert!(!view.switchable());
        assert_eq!(workspace.switch_target_from_view(child), Some(parent));
    }
    assert_eq!(workspace.validate_new_compound_view(parent, &pair()), Ok(children));
    assert_eq!(
        workspace.semantic_subtree(parent),
        Ok(vec![parent, children[0], children[1]])
    );
    assert_eq!(
        workspace.validate_compound_view(ViewId(0), &pair()),
        Err(LayoutError::InvalidWorkspace(WorkspaceFault::CompoundChildCount(ViewId(0))))
    );
}

#[test]
fn a_diff_view_must_agree_with_its_children() {
    let mut workspace = workspace();
    let result = workspace.replace_with_compound(
        EDITOR,
        bare(DIFF_VIEW_DEFINITION, 30, 31),
        [buffer(30), buffer(99)],
        SplitDirection::Right,
    );
    let error = result.err().unwrap();
    assert!(matches!(
        &error,
        LayoutError::InvalidWorkspace(fault) if fault.message()
            == "DiffView 3 binding and BufferView child are inconsistent"
    ));
    assert_eq!(workspace.views(), vec![ViewId(0)]);
}

#[test]
fn closing_a_part_of_a_compound_closes_all_of_it() {
    let (mut workspace, parent, children) = diff_workspace();
    let space = workspace.body_space_for_view(children[1]).unwrap();
    assert_eq!(workspace.replacement_space_for_view(parent), Some(workspace.focused()));
    let mutation = workspace.close(space).ok().unwrap();
    let removed: Vec<ViewId> = mutation.removed.iter().map(|view| view.id).collect();
    assert_eq!(removed, vec![parent, children[0], children[1]]);
    assert_eq!(workspace.views(), vec![ViewId(0)]);
    assert_eq!(workspace.focused(), EDITOR);
}

#[test]
fn rebinding_a_compound_rebinds_its_child() {
    let (mut workspace, parent, children) = diff_workspace();
    let right = BindingKey::new(RIGHT_BINDING);
    assert_eq!(
        workspace.rebind_compound_binding(
            parent,
            &pair(),
            &right,
            ContentId(40),
            ContentViewState::buffer(),
        ),
        Ok((ContentId(31), children[1]))
    );
    assert_eq!(workspace.view(parent).unwrap().binding(RIGHT_BINDING), Some(ContentId(40)));
    assert_eq!(
        workspace.view(children[1]).unwrap().document_content(),
        Some(ContentId(40))
    );
    assert_eq!(
        workspace.view(children[0]).unwrap().document_content(),
        Some(ContentId(30))
    );
    let center = BindingKey::new("center");
    assert_eq!(
        workspace.rebind_compound_binding(
            parent,
            &pair(),
            &center,
            ContentId(41),
            ContentViewState::buffer(),
        ),
        Err(LayoutError::MissingBinding {
            view: parent,
            binding: center,
        })
    );
    assert_eq!(
        workspace.rebind(parent, &right, ContentId(50), None).err().map(|error| match error {
            LayoutError::InvalidWorkspace(fault) => fault.message(),
            _ => String::new(),
        }),
        Some(format!("DiffView {} binding and BufferView child are inconsistent", parent.0))
    );
}

#[test]
fn composing_sets_parent_and_children_together() {
    let mut workspace = workspace();
    let (view, _) = split(&mut workspace, EDITOR, 11);
    workspace.compose(ViewId(0), &vec![(view, false)]).unwrap();
    assert_eq!(workspace.view(view).unwrap().parent(), Some(ViewId(0)));
    assert!(!workspace.view(view).unwrap().switchable());
    assert_eq!(
        workspace.compose(ViewId(0), &vec![(view, false)]),
        Err(LayoutError::InvalidWorkspace(WorkspaceFault::ParentOwnsChildren))
    );
    assert_eq!(
        workspace.compose(view, &vec![(view, false)]),
        Err(LayoutError::InvalidWorkspace(WorkspaceFault::ChildrenNotDistinct))
    );
    assert_eq!(
        workspace.compose(view, &vec![(ViewId(9), false)]),
        Err(LayoutError::MissingView(ViewId(9)))
    );
    workspace.set_switchable(view, true).unwrap();
    assert_eq!(workspace.switch_target_from_view(view), Some(view));
    assert_eq!(
        workspace.set_switchable(ViewId(9), true),
        Err(LayoutError::MissingView(ViewId(9)))
    );
}

#[test]
fn composing_a_cycle_is_refused() {
    let mut workspace = workspace();
    let (view, _) = split(&mut workspace, EDITOR, 11);
    workspace.compose(ViewId(0), &vec![(view, false)]).unwrap();
    assert_eq!(
        workspace.compose(view, &vec![(ViewId(0), false)]),
        Err(LayoutError::InvalidWorkspace(WorkspaceFault::ParentCycle))
    );
    assert_eq!(workspace.view(ViewId(0)).unwrap().parent(), None);
}

#[test]
fn closing_a_content_closes_every_view_on_it() {
    let mut workspace = workspace();
    let (_, space) = split(&mut workspace, EDITOR, 11);
    let (_, _) = split(&mut workspace, space, 10);
    assert_eq!(workspace.closing_content_needs_replacement(ContentId(10)), Ok(false));
    assert_eq!(workspace.blocking_content_reference(ContentId(10)), Ok(None));
    let mutation = workspace.close_content_views(ContentId(10), None).ok().unwrap();
    let removed: Vec<ViewId> = mutation.removed.iter().map(|view| view.id).collect();
    assert_eq!(removed, vec![ViewId(0), ViewId(2)]);
    assert_eq!(mutation.output, None);
    assert_eq!(workspace.views(), vec![ViewId(1)]);
    assert_eq!(workspace.scene_revision(), Revision(3));
    assert_eq!(workspace.focused(), space);
}

#[test]
fn closing_the_only_content_needs_a_replacement() {
    let mut workspace = workspace();
    assert_eq!(workspace.closing_content_needs_replacement(ContentId(10)), Ok(true));
    assert_eq!(
        workspace.close_content_views(ContentId(10), None).err(),
        Some(LayoutError::InvalidWorkspace(WorkspaceFault::ReplacementMismatch))
    );
    let mutation = workspace
        .close_content_views(ContentId(10), Some(buffer(50)))
        .ok()
        .unwrap();
    assert_eq!(mutation.output, Some(ViewId(1)));
    assert_eq!(workspace.views(), vec![ViewId(1)]);
    assert_eq!(workspace.focused(), EDITOR);
    assert_eq!(workspace.scene_revision(), Revision(1));
    let nothing = workspace.close_content_views(ContentId(10), None).ok().unwrap();
    assert_eq!(nothing.output, None);
    assert!(nothing.removed.is_empty());
    assert_eq!(workspace.scene_revision(), Revision(1));
}

#[test]
fn a_reference_that_stays_blocks_its_content() {
    let mut workspace = workspace();
    let (first, space) = split(&mut workspace, EDITOR, 11);
    let watcher = bare("test.watch", 10, 11);
    let (view, _) = workspace
        .split(space, watcher, true, SplitDirection::Down, false)
        .unwrap();
    assert_eq!(first, ViewId(1));
    assert_eq!(
        workspace.blocking_content_reference(ContentId(11)),
        Ok(Some((view, BindingKey::new(RIGHT_BINDING))))
    );
}

#[test]
fn extension_panes_are_installed_once_and_removed() {
    let mut workspace = workspace();
    let space = workspace
        .install_extension_pane(ViewId(0), "notes.main", ViewExtensionPaneSide::Right, 12)
        .unwrap();
    assert_eq!(workspace.view_for_space(space), Some(ViewId(0)));
    let index = workspace.scene().index(space).unwrap();
    assert_eq!(workspace.scene().nodes[index].sizing, Sizing::Fixed(12));
    assert!(!workspace.is_focusable(space));
    assert_eq!(
        workspace.install_extension_pane(
            ViewId(0),
            "notes.main",
            ViewExtensionPaneSide::Left,
            3,
        ),
        Ok(space)
    );
    assert_eq!(workspace.scene_revision(), Revision(1));
    assert_eq!(workspace.remove_extension_panes(&vec!["other".to_owned()]), Ok(0));
    assert_eq!(workspace.remove_extension_panes(&Vec::new()), Ok(0));
    assert_eq!(workspace.remove_extension_panes(&vec!["notes.main".to_owned()]), Ok(1));
    assert_eq!(
        workspace.view(ViewId(0)).unwrap().panes().space_for_key("notes.main"),
        None
    );
    assert_eq!(workspace.scene_revision(), Revision(2));
}

#[test]
fn reserved_pane_keys_are_not_for_extensions() {
    let mut workspace = workspace();
    let error = workspace
        .install_extension_pane(ViewId(0), BODY_PANE, ViewExtensionPaneSide::Above, 2)
        .unwrap_err();
    assert!(matches!(
        &error,
        LayoutError::InvalidWorkspace(fault) if fault.message()
            == "view extension pane key 'body' is reserved"
    ));
    let error = workspace
        .remove_extension_panes(&vec![STATUS_PANE.to_owned()])
        .unwrap_err();
    assert!(matches!(
        &error,
        LayoutError::InvalidWorkspace(fault) if fault.message()
            == "cannot remove reserved Pane 'builtin.status' as a view extension"
    ));
    assert_eq!(
        workspace.install_extension_pane(ViewId(7), "x", ViewExtensionPaneSide::Below, 2),
        Err(LayoutError::MissingView(ViewId(7)))
    );
    assert!(workspace.validate().is_ok());
}

#[test]
fn a_view_that_is_not_shown_has_no_anchor() {
    let mut workspace = workspace();
    let (view, space) = split(&mut workspace, EDITOR, 11);
    let key = "notes.main";
    workspace
        .install_extension_pane(view, key, ViewExtensionPaneSide::Left, 4)
        .unwrap();
    let data = workspace.view_mut(view).unwrap();
    assert_eq!(data.panes().key_for_space(space), Some(BODY_PANE));
    data.touch();
    assert_eq!(workspace.view(view).unwrap().revision(), Revision(1));
    assert!(workspace.view_mut(ViewId(9)).is_none());
}

#[test]
fn selections_of_views_can_be_set() {
    let mut workspace = workspace();
    let selections = Selections::single(Selection::collapsed(TextOffset { char_index: 3 }));
    assert!(workspace.set_selections(ViewId(0), selections.clone()));
    assert!(!workspace.set_selections(ViewId(0), selections.clone()));
    assert!(!workspace.set_selections(ViewId(9), selections));
    assert_eq!(workspace.view(ViewId(0)).unwrap().revision(), Revision(1));
}

const CONTENT: ContentId = ContentId(0);

fn editor() -> ViewWorkspace<Tree> {
    let builder = Tree {
        next: 0,
        failing: false,
    };
    ViewWorkspace::editor(builder, 40, 5, ViewId(0), buffer(0), 1)
        .ok()
        .unwrap()
}

/// Shows another view on the first content, and gives its space and the view.
fn beside(
    workspace: &mut ViewWorkspace<Tree>,
    target: SpaceId,
    direction: SplitDirection,
    focus: bool,
) -> (SpaceId, ViewId) {
    let space = workspace
        .split(target, buffer(CONTENT.0), true, direction, focus)
        .unwrap()
        .1
        .new_space;
    (space, view_for_space(workspace.scene(), space).unwrap())
}

fn contains(workspace: &ViewWorkspace<Tree>, space: SpaceId) -> bool {
    workspace.scene().index(space).is_some()
}

fn sizing(workspace: &ViewWorkspace<Tree>, space: SpaceId) -> Sizing {
    let index = workspace.scene().index(space).unwrap();
    workspace.scene().nodes[index].sizing
}

/// A view with two children on the left and on the right, the parent below the right one.
struct Coordinated {
    workspace: ViewWorkspace<Tree>,
    left: (SpaceId, ViewId),
    right: (SpaceId, ViewId),
    coordinator: (SpaceId, ViewId),
}

fn coordinated(mut workspace: ViewWorkspace<Tree>) -> Coordinated {
    let left_space = workspace.focused();
    let left = view_for_space(workspace.scene(), left_space).unwrap();
    let right = beside(&mut workspace, left_space, SplitDirection::Right, false);
    let coordinator = beside(&mut workspace, right.0, SplitDirection::Down, false);
    workspace
        .compose(coordinator.1, &vec![(left, false), (right.1, false)])
        .unwrap();
    Coordinated {
        workspace,
        left: (left_space, left),
        right,
        coordinator,
    }
}

#[test]
fn switch_target_resolves_nearest_switchable_ancestor() {
    let mut workspace = editor();
    let left_space = workspace.focused();
    let left = view_for_space(workspace.scene(), left_space).unwrap();
    let (right_space, right) = beside(&mut workspace, left_space, SplitDirection::Right, false);
    let (coordinator_space, coordinator) =
        beside(&mut workspace, right_space, SplitDirection::Down, false);
    assert_eq!(workspace.switch_target(workspace.focused()), Some(left));

    workspace
        .compose(coordinator, &vec![(left, false), (right, false)])
        .unwrap();
    assert_eq!(workspace.switch_target(left_space), Some(coordinator));
    assert_eq!(workspace.switch_target(right_space), Some(coordinator));
    assert_eq!(workspace.switch_target(coordinator_space), Some(coordinator));

    workspace.set_switchable(coordinator, false).unwrap();
    assert_eq!(workspace.switch_target(left_space), None);
}

#[test]
fn switching_a_compound_view_replaces_all_of_it() {
    let Coordinated {
        mut workspace,
        left,
        right,
        coordinator,
    } = coordinated(editor());
    let revision = workspace.scene_revision();
    workspace.replace(coordinator.0, buffer(5), true).ok().unwrap();

    let replacement = view_for_space(workspace.scene(), coordinator.0).unwrap();
    assert_eq!(workspace.scene_revision(), Revision(revision.0 + 1));
    assert_eq!(workspace.views().len(), 1);
    assert_eq!(workspace.focused(), coordinator.0);
    assert_eq!(workspace.view(replacement).unwrap().require_document(), ContentId(5));
    for removed in [left.1, right.1, coordinator.1] {
        assert!(workspace.view(removed).is_none());
    }
    assert!(!contains(&workspace, left.0));
    assert!(!contains(&workspace, right.0));
    assert!(contains(&workspace, coordinator.0));
    assert!(scene_views(workspace.scene())
        .into_iter()
        .all(|leaf| leaf.view == replacement));
}

#[test]
fn same_content_switch_still_replaces_a_compound_view_with_a_leaf() {
    let Coordinated {
        mut workspace,
        left,
        right,
        coordinator,
    } = coordinated(editor());
    workspace.replace(coordinator.0, buffer(CONTENT.0), true).ok().unwrap();

    let replacement = view_for_space(workspace.scene(), coordinator.0).unwrap();
    assert!(![left.1, right.1, coordinator.1].contains(&replacement));
    assert_eq!(workspace.views().len(), 1);
    assert!(workspace.view(replacement).unwrap().children().is_empty());
    assert!(!contains(&workspace, left.0));
    assert!(!contains(&workspace, right.0));
}

#[test]
fn compound_view_switch_removes_descendant_per_pane_status_bars() {
    let mut workspace = editor();
    workspace
        .set_status_bar_placement(StatusBarPlacement::PerPane)
        .unwrap();
    let Coordinated {
        mut workspace,
        left,
        right,
        coordinator,
    } = coordinated(workspace);
    let left_status = workspace.status_bar_for_view(left.1).unwrap().space;
    let right_status = workspace.status_bar_for_view(right.1).unwrap().space;
    let coordinator_status = workspace.status_bar_for_view(coordinator.1).unwrap().space;
    workspace.replace(coordinator.0, buffer(5), true).ok().unwrap();

    let replacement = view_for_space(workspace.scene(), coordinator.0).unwrap();
    assert_eq!(
        workspace.status_bar_for_view(replacement).unwrap().space,
        coordinator_status
    );
    for removed in [left.0, left_status, right.0, right_status] {
        assert!(!contains(&workspace, removed));
    }
    assert_eq!(scene_views(workspace.scene()).len(), 2);
    assert!(scene_views(workspace.scene())
        .into_iter()
        .all(|leaf| leaf.view == replacement));
}

#[test]
fn closing_a_content_replaces_a_compound_view_on_it() {
    let Coordinated {
        mut workspace,
        left,
        right,
        coordinator,
    } = coordinated(editor());
    workspace
        .close_content_views(CONTENT, Some(buffer(6)))
        .ok()
        .unwrap();

    let replacement = view_for_space(workspace.scene(), coordinator.0).unwrap();
    assert_eq!(workspace.views().len(), 1);
    assert_ne!(workspace.view(replacement).unwrap().require_document(), CONTENT);
    assert_eq!(workspace.focused(), coordinator.0);
    for removed in [left.1, right.1, coordinator.1] {
        assert!(workspace.view(removed).is_none());
    }
    assert!(!contains(&workspace, left.0));
    assert!(!contains(&workspace, right.0));
    assert!(scene_views(workspace.scene())
        .into_iter()
        .all(|leaf| leaf.view == replacement));
}

#[test]
fn closing_a_compound_view_leaves_what_is_beside_it() {
    let mut workspace = editor();
    let left_space = workspace.focused();
    let left = view_for_space(workspace.scene(), left_space).unwrap();
    let (right_space, right) = beside(&mut workspace, left_space, SplitDirection::Right, false);
    let (coordinator_space, coordinator) =
        beside(&mut workspace, right_space, SplitDirection::Down, false);
    let (survivor_space, survivor) =
        beside(&mut workspace, coordinator_space, SplitDirection::Right, false);
    workspace
        .compose(coordinator, &vec![(left, false), (right, false)])
        .unwrap();
    workspace.close(coordinator_space).ok().unwrap();

    assert_eq!(workspace.focused(), survivor_space);
    assert_eq!(workspace.views().len(), 1);
    assert!(workspace.view(survivor).is_some());
    for (space, removed) in [
        (left_space, left),
        (right_space, right),
        (coordinator_space, coordinator),
    ] {
        assert!(!contains(&workspace, space));
        assert!(workspace.view(removed).is_none());
    }
    assert!(scene_views(workspace.scene())
        .into_iter()
        .all(|leaf| leaf.view == survivor));
}

#[test]
fn status_bar_is_globally_shared_by_default_and_can_be_hidden() {
    let mut workspace = editor();
    let view = view_for_space(workspace.scene(), workspace.focused()).unwrap();
    let status = workspace.status_bar_for_view(view).unwrap();
    assert_eq!(workspace.status_bar_placement(), StatusBarPlacement::Global);
    assert_eq!(workspace.status_bars_for_content(CONTENT), vec![status]);
    assert_eq!(workspace.status_bar_for_view(ViewId(99)), None);

    workspace.set_status_bar_visible(None, false).unwrap();
    assert_eq!(sizing(&workspace, status.space), Sizing::Fixed(0));
}

#[test]
fn global_status_bar_retargets_after_close_and_replace() {
    let mut workspace = editor();
    let left_space = workspace.focused();
    let left = view_for_space(workspace.scene(), left_space).unwrap();
    let (_, right_space) = split(&mut workspace, left_space, 9);
    workspace.close(right_space).ok().unwrap();
    let status = workspace.status_bar_for_view(left).unwrap();
    assert_eq!(status.target_view, left);

    workspace.replace(left_space, buffer(9), true).ok().unwrap();
    let replacement = view_for_space(workspace.scene(), left_space).unwrap();
    let status = workspace.status_bar_for_view(replacement).unwrap();
    assert_eq!(status.target_view, replacement);
}

#[test]
fn managed_status_bar_spaces_reject_layout_mutations() {
    for placement in [StatusBarPlacement::Global, StatusBarPlacement::PerPane] {
        let mut workspace = editor();
        workspace.set_status_bar_placement(placement).unwrap();
        let view = view_for_space(workspace.scene(), workspace.focused()).unwrap();
        let status = workspace.status_bar_for_view(view).unwrap();
        let space = status.space;
        let revision = workspace.scene_revision();
        let next_view = workspace.next_view_id();

        let refused = Some(LayoutError::StatusBarSpace(space));
        assert_eq!(workspace.close(space).err(), refused);
        let refused = Some(LayoutError::StatusBarSpace(space));
        assert_eq!(
            workspace
                .split(space, buffer(CONTENT.0), true, SplitDirection::Right, true)
                .err(),
            refused
        );
        let refused = Some(LayoutError::StatusBarSpace(space));
        assert_eq!(workspace.replace(space, buffer(CONTENT.0), true).err(), refused);
        let refused = Some(LayoutError::StatusBarSpace(space));
        assert_eq!(workspace.set_sizing(space, Sizing::Grow(1)).err(), refused);
        assert_eq!(workspace.scene_revision(), revision);
        assert_eq!(workspace.next_view_id(), next_view);
        assert_eq!(sizing(&workspace, space), Sizing::Fixed(1));
        assert_eq!(workspace.status_bar_for_view(view), Some(status));
    }
}

#[test]
fn per_pane_status_bars_cover_inert_buffer_views_in_both_creation_orders() {
    let mut before = editor();
    let focused = before.focused();
    let (inert, opened) = before
        .split(focused, buffer(CONTENT.0), false, SplitDirection::Right, false)
        .unwrap();
    let (_, nested) = beside(&mut before, opened.new_space, SplitDirection::Right, false);
    before
        .set_status_bar_placement(StatusBarPlacement::PerPane)
        .unwrap();
    assert!(before.status_bar_for_view(inert).is_some());
    assert!(before.status_bar_for_view(nested).is_some());

    let mut after = editor();
    after
        .set_status_bar_placement(StatusBarPlacement::PerPane)
        .unwrap();
    let focused = after.focused();
    let (inert, opened) = after
        .split(focused, buffer(CONTENT.0), false, SplitDirection::Right, false)
        .unwrap();
    let index = after.scene().index(opened.new_space).unwrap();
    assert!(matches!(
        after.scene().nodes[index].kind,
        SpaceKind::Content {
            focusable: false,
            ..
        }
    ));
    assert!(after.status_bar_for_view(inert).is_some());
    let (_, nested) = beside(&mut after, opened.new_space, SplitDirection::Right, false);
    assert!(after.status_bar_for_view(inert).is_some());
    assert!(after.status_bar_for_view(nested).is_some());
}

#[test]
fn per_pane_status_bars_are_distinct_and_independently_hidden() {
    let mut workspace = editor();
    let left_space = workspace.focused();
    let (right_space, right) = beside(&mut workspace, left_space, SplitDirection::Right, false);
    let left = view_for_space(workspace.scene(), left_space).unwrap();
    workspace
        .set_status_bar_placement(StatusBarPlacement::PerPane)
        .unwrap();

    let left_status = workspace.status_bar_for_view(left).unwrap();
    let right_status = workspace.status_bar_for_view(right).unwrap();
    assert_ne!(left_status, right_status);
    assert_eq!(
        workspace.status_bars_for_content(CONTENT),
        vec![left_status, right_status]
    );
    let queried = workspace
        .status_bars_for_content(CONTENT)
        .into_iter()
        .find(|bar| bar.target_view == left)
        .unwrap();
    workspace
        .set_status_bar_visible(Some(queried.target_view), false)
        .unwrap();
    assert_eq!(sizing(&workspace, left_status.space), Sizing::Fixed(0));
    assert_eq!(sizing(&workspace, right_status.space), Sizing::Fixed(1));

    workspace.close(right_space).ok().unwrap();
    assert_eq!(workspace.status_bars_for_content(CONTENT), vec![left_status]);
}

#[test]
fn typed_view_focus_targets_an_existing_view() {
    let mut workspace = editor();
    let left_space = workspace.focused();
    let (right_space, right) = beside(&mut workspace, left_space, SplitDirection::Right, false);
    let space = workspace.body_space_for_view(right).unwrap();
    workspace.focus(space).unwrap();
    assert_eq!(workspace.focused(), right_space);
}

#[test]
fn close_buffer_removes_all_views_of_shared_content() {
    let mut workspace = editor();
    let left = workspace.focused();
    beside(&mut workspace, left, SplitDirection::Right, true);
    workspace
        .close_content_views(CONTENT, Some(buffer(1)))
        .ok()
        .unwrap();
    assert!(workspace
        .views()
        .into_iter()
        .all(|view| workspace.view(view).unwrap().require_document() != CONTENT));
    assert_eq!(focusable_view_count(workspace.scene()), 1);
}

#[test]
fn close_focused_space_prefers_surviving_neighbor_and_drops_its_view() {
    let mut workspace = editor();
    let left = workspace.focused();
    let (right, right_view) = beside(&mut workspace, left, SplitDirection::Right, true);
    workspace.close(right).ok().unwrap();
    assert_eq!(workspace.focused(), left);
    assert!(!workspace.views().contains(&right_view));
}

#[test]
fn closing_an_unfocused_space_preserves_focus() {
    let mut workspace = editor();
    let left = workspace.focused();
    let (middle, _) = beside(&mut workspace, left, SplitDirection::Right, false);
    let (right, _) = beside(&mut workspace, middle, SplitDirection::Right, false);
    assert_eq!(workspace.focused(), left);
    workspace.close(right).ok().unwrap();
    assert_eq!(workspace.focused(), left);
    assert_eq!(focusable_view_count(workspace.scene()), 2);
}

#[test]
fn closing_a_focused_space_prefers_a_focusable_descendant_of_its_neighbor() {
    for placement in [StatusBarPlacement::Global, StatusBarPlacement::PerPane] {
        let mut workspace = editor();
        workspace.set_status_bar_placement(placement).unwrap();
        let first = workspace.focused();
        let (closing, _) = beside(&mut workspace, first, SplitDirection::Right, true);
        let (neighbor, _) = beside(&mut workspace, closing, SplitDirection::Right, true);
        beside(&mut workspace, neighbor, SplitDirection::Down, false);
        workspace.focus(closing).unwrap();
        assert_eq!(workspace.focused(), closing);
        workspace.close(closing).ok().unwrap();
        assert_eq!(workspace.focused(), neighbor);
        assert_eq!(focusable_view_count(workspace.scene()), 3);
    }
}

#[test]
fn global_status_does_not_hide_the_previous_focusable_close_neighbor() {
    let mut workspace = editor();
    let first = workspace.focused();
    let (previous, _) = beside(&mut workspace, first, SplitDirection::Down, true);
    let (closing, _) = beside(&mut workspace, previous, SplitDirection::Down, true);
    workspace.close(closing).ok().unwrap();
    assert_eq!(workspace.focused(), previous);
    assert_eq!(focusable_view_count(workspace.scene()), 2);
}

#[test]
fn successful_layout_mutation_advances_scene_revision() {
    let mut workspace = editor();
    workspace
        .set_sizing(workspace.focused(), Sizing::Fixed(12))
        .unwrap();
    assert_eq!(workspace.scene_revision(), Revision(1));
}

#[test]
fn preferred_inert_status_space_is_not_selected() {
    let workspace = editor();
    assert_eq!(
        resolve_focus(workspace.scene(), workspace.focused(), Some(STATUS)),
        Some(workspace.focused())
    );
}

#[test]
fn closing_last_focusable_space_is_rejected() {
    let mut workspace = editor();
    assert!(matches!(
        workspace.close(workspace.focused()),
        Err(LayoutError::WouldRemoveLastFocusable(_))
    ));
    assert_ne!(workspace.focused(), STATUS);
}

#[test]
fn replacing_only_focusable_content_with_inert_space_is_rejected() {
    let mut workspace = editor();
    let focused = workspace.focused();
    assert_eq!(
        workspace.replace(focused, buffer(9), false).err(),
        Some(LayoutError::NoFocusableSpace)
    );
    assert_eq!(workspace.focused(), focused);
    let view = view_for_space(workspace.scene(), focused).unwrap();
    assert_eq!(workspace.view(view).unwrap().require_document(), CONTENT);
}

#[test]
fn failed_layout_mutations_do_not_consume_view_ids() {
    let mut workspace = editor();
    let next = workspace.next_view_id();
    let missing = SpaceId(999);
    assert!(workspace
        .split(missing, buffer(CONTENT.0), true, SplitDirection::Right, false)
        .is_err());
    assert_eq!(workspace.next_view_id(), next);
    assert!(workspace.replace(missing, buffer(CONTENT.0), true).is_err());
    assert_eq!(workspace.next_view_id(), next);

    workspace
        .set_status_bar_placement(StatusBarPlacement::PerPane)
        .unwrap();
    let next = workspace.next_view_id();
    assert!(workspace
        .split(missing, buffer(CONTENT.0), true, SplitDirection::Right, false)
        .is_err());
    assert_eq!(workspace.next_view_id(), next);
}

#[test]
fn moving_status_bars_keeps_the_views() {
    let mut workspace = workspace();
    let (view, _) = split(&mut workspace, EDITOR, 11);
    for placement in [StatusBarPlacement::PerPane, StatusBarPlacement::Global] {
        workspace.set_status_bar_placement(placement).unwrap();
        assert_eq!(workspace.views(), vec![ViewId(0), view]);
        assert_eq!(workspace.next_view_id(), ViewId(2));
        assert_eq!(workspace.view(ViewId(0)).unwrap().require_document(), ContentId(10));
        assert_eq!(workspace.view(view).unwrap().require_document(), ContentId(11));
        assert_eq!(workspace.view(view).unwrap().revision(), Revision(0));
    }
}

#[test]
fn closing_a_content_closes_the_whole_of_a_compound_with_a_switchable_part() {
    let mut workspace = workspace();
    let (_, space) = split(&mut workspace, EDITOR, 11);
    let made = workspace
        .replace_with_compound(
            space,
            bare("test.pair", 30, 31),
            [buffer(30), buffer(31)],
            SplitDirection::Right,
        )
        .ok()
        .unwrap();
    let parent = made.output.parent;
    let children = made.output.children;
    workspace.set_switchable(children[0], true).unwrap();
    assert_eq!(
        workspace.focused(),
        workspace.body_space_for_view(children[0]).unwrap()
    );
    let revision = workspace.scene_revision();
    let mutation = workspace
        .close_content_views(ContentId(31), None)
        .ok()
        .unwrap();
    let removed: Vec<ViewId> = mutation.removed.iter().map(|view| view.id).collect();
    assert_eq!(removed, vec![parent, children[0], children[1]]);
    assert_eq!(mutation.output, None);
    assert_eq!(workspace.views(), vec![ViewId(0)]);
    assert_eq!(workspace.focused(), EDITOR);
    assert_eq!(workspace.scene_revision(), Revision(revision.0 + 1));
    assert!(scene_views(workspace.scene()).into_iter().all(|leaf| leaf.view == ViewId(0)));
}

#[test]
fn a_removed_pane_leaves_the_views_as_they_were() {
    let mut workspace = workspace();
    split(&mut workspace, EDITOR, 11);
    let focused = workspace.focused();
    let spaces_of = |workspace: &ViewWorkspace<Tree>, view: ViewId| {
        let panes = workspace.view(view).unwrap().panes();
        (panes.space_for_key(BODY_PANE), panes.space_for_key(STATUS_PANE))
    };
    let views = workspace.views();
    let before: Vec<_> = views.iter().map(|view| spaces_of(&workspace, *view)).collect();
    workspace
        .install_extension_pane(ViewId(0), "notes.main", ViewExtensionPaneSide::Right, 12)
        .unwrap();
    assert_eq!(workspace.remove_extension_panes(&vec!["notes.main".to_owned()]), Ok(1));
    let after: Vec<_> = views.iter().map(|view| spaces_of(&workspace, *view)).collect();
    assert_eq!(workspace.views(), views);
    assert_eq!(after, before);
    assert_eq!(workspace.view(ViewId(0)).unwrap().panes().space_for_key("notes.main"), None);
    assert_eq!(workspace.focused(), focused);
}

#[test]
fn panes_of_several_views_are_removed_once() {
    let mut workspace = workspace();
    let (second, _) = split(&mut workspace, EDITOR, 11);
    let keys = vec!["notes.main".to_owned(), "notes.other".to_owned()];
    let mut spaces = Vec::new();
    for view in [ViewId(0), second] {
        let space = workspace
            .install_extension_pane(view, "notes.main", ViewExtensionPaneSide::Right, 12)
            .unwrap();
        let revision = workspace.scene_revision();
        let again =
            workspace.install_extension_pane(view, "notes.main", ViewExtensionPaneSide::Left, 3);
        assert_eq!(again, Ok(space));
        assert_eq!(workspace.scene_revision(), revision);
        spaces.push(space);
    }
    assert_eq!(workspace.remove_extension_panes(&keys), Ok(2));
    for view in [ViewId(0), second] {
        assert_eq!(workspace.view(view).unwrap().panes().space_for_key("notes.main"), None);
    }
    for space in spaces {
        assert_eq!(workspace.view_for_space(space), None);
        assert!(!contains(&workspace, space));
    }
    let revision = workspace.scene_revision();
    assert_eq!(workspace.remove_extension_panes(&keys), Ok(0));
    assert_eq!(workspace.scene_revision(), revision);
}
