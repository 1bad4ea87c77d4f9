use vell::protocol::{ContentId, Revision, Selection, SpaceId, TextOffset, ViewId};
use vell::view::content_state::{ContentViewState, Selections};
use vell::view::definition::{ViewDefinitionId, BUFFER_VIEW_DEFINITION};
use vell::view::extension::definition::{
    ViewExtensionDefinition, ViewExtensionPane, ViewExtensionPaneSide,
};
use vell::view::extension::document::{
    extension_document, ContentRecord, ContentTable, TextPlace, TextRecord, ViewExtensionContext,
    ViewExtensionContractError, ViewExtensionPosition,
};
use vell::view::extension::presentation::{
    bounded_message, fault_presentation, NamedLineSegment, NamedLinesPresentation,
};
use vell::view::extension::store::{
    RegisteredExtension, ViewExtension, ViewExtensionRegistrationError, ViewExtensionStore,
};
use vell::view::instance::View;
use vell::view::layout::{LayoutError, WorkspaceFault};
use vell::view::registry::ViewDefinitionRegistry;
use vell::view::scene::{
    CloseResult, EditorScene, Scene, SceneBuilder, SceneError, SceneNode, SceneSize, Sizing,
    SpaceKind, SplitDirection, SplitResult, StatusPane,
};
use vell::view::workspace::ViewWorkspace;

/// A builder of scenes with one container: every leaf is directly in it.
struct Flat {
    next: u64,
}

impl Flat {
    fn push(&mut self, scene: &mut Scene, view: ViewId, focusable: bool) -> SpaceId {
        let space = SpaceId(self.next);
        self.next += 1;
        scene.nodes.push(SceneNode {
            space,
            depth: 1,
            sizing: Sizing::Grow(1),
            kind: SpaceKind::Content { view, focusable },
        });
        space
    }
}

impl SceneBuilder for Flat {
    fn fork(&self) -> Self {
        Flat { next: self.next }
    }

    fn editor_scene(&mut self, width: i32, height: i32, editor: ViewId) -> EditorScene {
        let mut scene = Scene {
            size: SceneSize { width, height },
            nodes: vec![SceneNode {
                space: SpaceId(100),
                depth: 0,
                sizing: Sizing::Grow(1),
                kind: SpaceKind::Container,
            }],
        };
        let editor_space = self.push(&mut scene, editor, true);
        let status_space = self.push(&mut scene, editor, false);
        EditorScene {
            scene,
            editor_space,
            status_space,
        }
    }

    fn split(
        &mut self,
        scene: &mut Scene,
        _target: SpaceId,
        view: ViewId,
        focusable: bool,
        _direction: SplitDirection,
    ) -> Result<SplitResult, SceneError> {
        Ok(SplitResult {
            new_space: self.push(scene, view, focusable),
        })
    }

    fn split_pane(
        &mut self,
        _scene: &mut Scene,
        _target: SpaceId,
        _view: ViewId,
        _status: ViewId,
        _focusable: bool,
        _direction: SplitDirection,
    ) -> Result<StatusPane, SceneError> {
        Err(SceneError::InvalidTree)
    }

    fn wrap_with_status(
        &mut self,
        _scene: &mut Scene,
        _target: SpaceId,
        _status: ViewId,
    ) -> Result<StatusPane, SceneError> {
        Err(SceneError::InvalidTree)
    }

    fn attach_global_status(
        &mut self,
        scene: &mut Scene,
        view: ViewId,
    ) -> Result<SpaceId, SceneError> {
        Ok(self.push(scene, view, false))
    }

    fn close(&mut self, scene: &mut Scene, target: SpaceId) -> Result<CloseResult, SceneError> {
        scene.nodes.retain(|node| node.space != target);
        Ok(CloseResult {
            surviving_neighbor: None,
        })
    }

    fn replace_view(
        &mut self,
        scene: &mut Scene,
        target: SpaceId,
        view: ViewId,
        focusable: bool,
    ) -> Result<(), SceneError> {
        for node in &mut scene.nodes {
            if node.space == target {
                node.kind = SpaceKind::Content { view, focusable };
            }
        }
        Ok(())
    }

    fn set_sizing(
        &mut self,
        _scene: &mut Scene,
        _target: SpaceId,
        _sizing: Sizing,
    ) -> Result<(), SceneError> {
        Ok(())
    }
}

/// An extension that shows how often it was asked, or fails.
struct Counter {
    asked: usize,
    failing: bool,
    unloaded: bool,
}

impl ViewExtension for Counter {
    fn present(
        &mut self,
        pane: &str,
        context: &ViewExtensionContext,
    ) -> Result<NamedLinesPresentation, ViewExtensionContractError> {
        self.asked += 1;
        if self.failing {
            return Err(ViewExtensionContractError {
                message: "x".repeat(600),
            });
        }
        let text = match &context.document {
            Some(document) => format!("{pane} {} {}", self.asked, document.text),
            None => format!("{pane} {}", self.asked),
        };
        Ok(NamedLinesPresentation {
            base_face: None,
            rows: vec![vec![NamedLineSegment { text, face: None }]],
        })
    }

    fn check(&self, presentation: &NamedLinesPresentation) -> Result<(), ViewExtensionContractError> {
        match presentation.rows.iter().flatten().find(|segment| segment.text.contains('\n')) {
            Some(_) => Err(ViewExtensionContractError {
                message: String::from("a line is broken"),
            }),
            None => Ok(()),
        }
    }

    fn unload(&mut self) {
        self.unloaded = true;
    }
}

fn counter(id: &str, owner: &str, target: &str, failing: bool) -> RegisteredExtension<Counter> {
    RegisteredExtension {
        definition: ViewExtensionDefinition::new(
            id,
            owner,
            ViewDefinitionId::new(target),
            vec![ViewExtensionPane::new(
                "main",
                &format!("{id}/main"),
                ViewExtensionPaneSide::Right,
                20,
            )],
        ),
        extension: Counter {
            asked: 0,
            failing,
            unloaded: false,
        },
    }
}

fn store(extensions: Vec<RegisteredExtension<Counter>>) -> ViewExtensionStore<Counter> {
    ViewExtensionStore::new(extensions, &ViewDefinitionRegistry::new())
        .ok()
        .unwrap()
}

fn workspace() -> ViewWorkspace<Flat> {
    let view = View::buffer(ContentId(5), ContentViewState::buffer());
    ViewWorkspace::editor(Flat { next: 0 }, 80, 24, ViewId(0), view, 1)
        .ok()
        .unwrap()
}

fn contents(revision: u64, text: &str) -> ContentTable {
    let mut table = ContentTable::new();
    table.insert(
        ContentId(5),
        ContentRecord {
            revision: Revision(revision),
            text: Some(TextRecord {
                text: text.to_owned(),
                places: vec![TextPlace {
                    char_index: 0,
                    position: ViewExtensionPosition {
                        line: 0,
                        character: 0,
                    },
                }],
            }),
            resource_name: Some("notes.txt".to_owned()),
        },
    );
    table
}

fn text_of(presentation: &NamedLinesPresentation) -> &str {
    presentation.rows[0][0].text.as_str()
}

#[test]
fn panes_are_asked_for_lines_only_when_something_changed() {
    let mut workspace = workspace();
    let mut store = store(vec![counter("count", "me", BUFFER_VIEW_DEFINITION, false)]);
    store.reconcile_workspace(&mut workspace).unwrap();

    let shown = store.refresh(&workspace, &contents(1, "one"), 100);
    assert_eq!(shown.len(), 1);
    assert_eq!(shown[0].view, ViewId(0));
    assert_eq!(shown[0].key, "count/main");
    assert_eq!(shown[0].content, Some(ContentId(5)));
    assert_eq!(text_of(&shown[0].presentation), "main 1 one");

    let again = store.refresh(&workspace, &contents(1, "one"), 100);
    assert_eq!(text_of(&again[0].presentation), "main 1 one");
    let edited = store.refresh(&workspace, &contents(2, "two"), 100);
    assert_eq!(text_of(&edited[0].presentation), "main 2 two");

    let caret = Selection::collapsed(TextOffset { char_index: 9 });
    workspace.set_selections(ViewId(0), Selections::single(caret));
    let moved = store.refresh(&workspace, &contents(2, "two"), 100);
    assert_eq!(
        text_of(&moved[0].presentation),
        "extension fault: View extension selection is invalid"
    );
}

#[test]
fn a_failed_pane_stays_failed_and_its_message_is_cut() {
    let mut workspace = workspace();
    let mut store = store(vec![counter("fail", "me", BUFFER_VIEW_DEFINITION, true)]);
    store.reconcile_workspace(&mut workspace).unwrap();
    let shown = store.refresh(&workspace, &contents(1, "one"), 100);
    let text = text_of(&shown[0].presentation).to_owned();
    assert_eq!(text.chars().count(), "extension fault: ".len() + 512);
    let again = store.refresh(&workspace, &contents(2, "two"), 100);
    assert_eq!(text_of(&again[0].presentation), text);
}

#[test]
fn a_text_that_is_too_long_is_a_fault() {
    let mut workspace = workspace();
    let mut store = store(vec![counter("count", "me", BUFFER_VIEW_DEFINITION, false)]);
    store.reconcile_workspace(&mut workspace).unwrap();
    let shown = store.refresh(&workspace, &contents(1, "twelve bytes"), 11);
    assert_eq!(
        text_of(&shown[0].presentation),
        "extension fault: View extension document has 12 text bytes; maximum is 11"
    );
}

#[test]
fn documents_tell_text_selections_and_name() {
    let view = View::buffer(ContentId(5), ContentViewState::buffer());
    let document = extension_document(&view, &contents(4, "text"), 100)
        .unwrap()
        .unwrap();
    assert_eq!(document.content_id, ContentId(5));
    assert_eq!(document.revision, Revision(4));
    assert_eq!(document.text, "text");
    assert_eq!(document.resource_name, Some("notes.txt".to_owned()));
    assert_eq!(document.selections.len(), 1);
    assert_eq!(document.primary_selection, document.selections[0]);
    assert_eq!(extension_document(&view, &ContentTable::new(), 100), Ok(None));
    let opaque = View::buffer(ContentId(5), ContentViewState::opaque());
    assert_eq!(extension_document(&opaque, &contents(4, "text"), 100), Ok(None));
}

#[test]
fn extensions_have_names_of_their_own_and_known_targets() {
    let registry = ViewDefinitionRegistry::new();
    let twice = ViewExtensionStore::new(
        vec![
            counter("count", "me", BUFFER_VIEW_DEFINITION, false),
            counter("count", "you", BUFFER_VIEW_DEFINITION, false),
        ],
        &registry,
    );
    assert_eq!(
        twice.err(),
        Some(ViewExtensionRegistrationError::Duplicate("count".to_owned()))
    );
    let unknown =
        ViewExtensionStore::new(vec![counter("count", "me", "test.none", false)], &registry);
    assert_eq!(
        unknown.err(),
        Some(ViewExtensionRegistrationError::UnknownTarget {
            extension: "count".to_owned(),
            target: ViewDefinitionId::new("test.none"),
        })
    );
}

#[test]
fn registration_errors_are_told_in_words() {
    let duplicate = ViewExtensionRegistrationError::Duplicate("count".to_owned());
    assert_eq!(
        duplicate.message(),
        Some("view extension 'count' is already registered".to_owned())
    );
    let unknown = ViewExtensionRegistrationError::UnknownTarget {
        extension: "count".to_owned(),
        target: ViewDefinitionId::new("test.none"),
    };
    assert_eq!(
        unknown.message(),
        Some("view extension 'count' targets unknown View definition 'test.none'".to_owned())
    );
}

#[test]
fn removing_an_owner_forgets_its_extensions() {
    let mut workspace = workspace();
    let mut store = store(vec![
        counter("a", "mine", BUFFER_VIEW_DEFINITION, false),
        counter("b", "other", BUFFER_VIEW_DEFINITION, false),
    ]);
    store.reconcile_workspace(&mut workspace).unwrap();
    assert_eq!(store.refresh(&workspace, &contents(1, "one"), 100).len(), 2);
    assert!(store.targets_any(&vec![ViewDefinitionId::new(BUFFER_VIEW_DEFINITION)]));
    assert!(!store.targets_any(&vec![ViewDefinitionId::new("test.none")]));
    let keys = store.pane_keys_for_owner("mine");
    assert_eq!(keys, vec!["a/main".to_owned()]);
    assert_eq!(workspace.remove_extension_panes(&keys), Ok(1));
    assert_eq!(store.remove_owner("mine"), 1);
    assert_eq!(store.remove_owner("mine"), 0);
    assert!(store.pane_keys_for_owner("mine").is_empty());
    assert!(!store.is_empty());
    let shown = store.refresh(&workspace, &contents(1, "one"), 100);
    assert_eq!(shown.len(), 1);
    assert_eq!(shown[0].key, "b/main");
}

#[test]
fn panes_that_are_gone_are_not_shown() {
    let workspace = workspace();
    let mut store = store(vec![counter("count", "me", BUFFER_VIEW_DEFINITION, false)]);
    assert!(store.refresh(&workspace, &contents(1, "one"), 100).is_empty());
    let empty: ViewExtensionStore<Counter> = ViewExtensionStore::empty();
    assert!(empty.is_empty());
}

#[test]
fn a_reserved_pane_stops_reconciling() {
    let mut workspace = workspace();
    let extension = RegisteredExtension {
        definition: ViewExtensionDefinition::new(
            "bad",
            "me",
            ViewDefinitionId::new(BUFFER_VIEW_DEFINITION),
            vec![ViewExtensionPane::new("main", "body", ViewExtensionPaneSide::Above, 1)],
        ),
        extension: Counter {
            asked: 0,
            failing: false,
            unloaded: false,
        },
    };
    let store = store(vec![extension]);
    assert_eq!(
        store.reconcile_workspace(&mut workspace),
        Err(ViewExtensionRegistrationError::Layout(LayoutError::InvalidWorkspace(
            WorkspaceFault::ReservedPaneKey("body".to_owned())
        )))
    );
    assert_eq!(workspace.scene_revision(), Revision(0));
}

#[test]
fn messages_are_cut_after_as_many_characters_as_fit() {
    let long: String = "\u{e9}".repeat(513);
    assert_eq!(bounded_message(long), "\u{e9}".repeat(512));
    assert_eq!(bounded_message("short".to_owned()), "short");
    assert_eq!(text_of(&fault_presentation("why")), "extension fault: why");
}

#[test]
fn lines_that_do_not_pass_the_check_are_a_fault() {
    let mut workspace = workspace();
    let mut store = store(vec![counter("count", "me", BUFFER_VIEW_DEFINITION, false)]);
    store.reconcile_workspace(&mut workspace).unwrap();
    let shown = store.refresh(&workspace, &contents(1, "one\ntwo"), 100);
    assert_eq!(text_of(&shown[0].presentation), "extension fault: a line is broken");
    let again = store.refresh(&workspace, &contents(2, "three"), 100);
    assert_eq!(text_of(&again[0].presentation), "extension fault: a line is broken");
}

#[test]
fn a_second_refresh_shows_the_same() {
    let mut workspace = workspace();
    let mut store = store(vec![
        counter("fine", "me", BUFFER_VIEW_DEFINITION, false),
        counter("broken", "me", BUFFER_VIEW_DEFINITION, true),
    ]);
    store.reconcile_workspace(&mut workspace).unwrap();
    let first = store.refresh(&workspace, &contents(1, "one"), 100);
    let second = store.refresh(&workspace, &contents(1, "one"), 100);
    assert_eq!(first.len(), 2);
    assert_eq!(second.len(), 2);
    for (one, other) in first.iter().zip(second.iter()) {
        assert_eq!((one.view, &one.key, one.content), (other.view, &other.key, other.content));
        assert_eq!(text_of(&one.presentation), text_of(&other.presentation));
    }
}
