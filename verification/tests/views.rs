use vell::protocol::{ContentId, Revision, Selection, SpaceId, TextOffset, ViewId};
use vell::view::bindings::ContentBindingError;
use vell::view::content_state::{ContentViewState, Selections};
use vell::view::context::{require_mode_view_context, ModeContextError};
use vell::view::definition::{BindingKey, ViewDefinition, ViewDefinitionId, DOCUMENT_BINDING};
use vell::view::instance::View;
use vell::view::panes::{BODY_PANE, STATUS_PANE};

#[test]
fn pane_map_tracks_spaces_and_keys_bidirectionally() {
    let mut view = View::buffer(ContentId(1), ContentViewState::buffer());
    view.assign_pane(SpaceId(0), BODY_PANE);
    view.assign_pane(SpaceId(1), STATUS_PANE);

    assert_eq!(view.panes().key_for_space(SpaceId(0)), Some(BODY_PANE));
    assert_eq!(view.panes().space_for_key(STATUS_PANE), Some(SpaceId(1)));
    assert_eq!(
        view.release_pane_space(SpaceId(1)),
        Some(STATUS_PANE.to_owned())
    );
    assert_eq!(view.panes().space_for_key(STATUS_PANE), None);
}

#[test]
fn reassigning_a_pane_key_moves_it_to_the_new_space() {
    let mut view = View::buffer(ContentId(1), ContentViewState::buffer());
    view.assign_pane(SpaceId(1), STATUS_PANE);
    view.assign_pane(SpaceId(9), STATUS_PANE);

    assert_eq!(view.panes().space_for_key(STATUS_PANE), Some(SpaceId(9)));
    assert_eq!(view.panes().key_for_space(SpaceId(1)), None);
}

#[test]
fn views_default_to_switchable_without_semantic_parent() {
    let view = View::buffer(ContentId(0), ContentViewState::buffer());

    assert!(view.switchable());
    assert_eq!(view.parent(), None);
    assert!(view.children().is_empty());
}

#[test]
fn touch_advances_view_revision() {
    let mut view = View::buffer(ContentId(0), ContentViewState::buffer());

    view.touch();

    assert_eq!(view.revision(), Revision(1));
}

#[test]
fn rebinding_one_named_role_preserves_identity_and_other_roles() {
    let left = BindingKey::new("left");
    let right = BindingKey::new("right");
    let definition = ViewDefinition::new(
        ViewDefinitionId::new("test.diff"),
        vec![left.clone(), right.clone()],
    )
    .unwrap();
    let mut view = View::with_definition(
        &definition,
        vec![(left.clone(), ContentId(1)), (right.clone(), ContentId(2))],
        None,
    )
    .unwrap();

    let previous = view.rebind(&right, ContentId(3), None).unwrap();

    assert_eq!(previous, ContentId(2));
    assert_eq!(view.binding("left"), Some(ContentId(1)));
    assert_eq!(view.binding("right"), Some(ContentId(3)));
    assert_eq!(view.definition().as_str(), "test.diff");
    assert_eq!(view.binding_revision(), Revision(1));
    assert_eq!(view.revision(), Revision(1));
}

#[test]
fn view_bindings_must_exactly_match_the_definition_schema() {
    let left = BindingKey::new("left");
    let right = BindingKey::new("right");
    let definition = ViewDefinition::new(
        ViewDefinitionId::new("test.diff"),
        vec![left.clone(), right.clone()],
    )
    .unwrap();

    let missing = View::with_definition(&definition, vec![(left.clone(), ContentId(1))], None);
    let unknown = View::with_definition(
        &definition,
        vec![
            (left, ContentId(1)),
            (right, ContentId(2)),
            (BindingKey::new("center"), ContentId(3)),
        ],
        None,
    );

    assert!(matches!(
        missing,
        Err(ContentBindingError::Missing(binding)) if binding.as_str() == "right"
    ));
    assert!(matches!(
        unknown,
        Err(ContentBindingError::Unknown(binding)) if binding.as_str() == "center"
    ));
}

#[test]
fn failed_rebind_does_not_change_document_state() {
    let mut view = View::buffer(ContentId(1), ContentViewState::buffer());
    let original_state = view.require_document_state().clone();

    let result = view.rebind(
        &BindingKey::new("missing"),
        ContentId(2),
        Some(ContentViewState::buffer()),
    );

    assert_eq!(
        result,
        Err(ContentBindingError::Unknown(BindingKey::new("missing")))
    );
    assert_eq!(view.require_document_state(), &original_state);
    assert_eq!(view.revision(), Revision(0));
}

#[test]
fn rebind_rejects_mismatched_document_state_without_mutating() {
    let right = BindingKey::new("right");
    let definition = ViewDefinition::new(
        ViewDefinitionId::new("test.document-and-right"),
        vec![BindingKey::new(DOCUMENT_BINDING), right.clone()],
    )
    .unwrap();
    let mut view = View::with_definition(
        &definition,
        vec![
            (BindingKey::new(DOCUMENT_BINDING), ContentId(1)),
            (right.clone(), ContentId(2)),
        ],
        Some(ContentViewState::buffer()),
    )
    .unwrap();

    let missing_document_state =
        view.rebind(&BindingKey::new(DOCUMENT_BINDING), ContentId(3), None);
    let unexpected_secondary_state =
        view.rebind(&right, ContentId(4), Some(ContentViewState::buffer()));

    assert_eq!(
        missing_document_state,
        Err(ContentBindingError::DocumentStateMismatch)
    );
    assert_eq!(
        unexpected_secondary_state,
        Err(ContentBindingError::DocumentStateMismatch)
    );
    assert_eq!(view.document_content(), Some(ContentId(1)));
    assert_eq!(view.binding("right"), Some(ContentId(2)));
    assert_eq!(view.revision(), Revision(0));
}

fn caret(char_index: usize) -> Selection {
    Selection::collapsed(TextOffset { char_index })
}

#[test]
fn duplicate_roles_are_refused() {
    let twice = ViewDefinition::new(
        ViewDefinitionId::new("test.twice"),
        vec![BindingKey::new("left"), BindingKey::new("left")],
    );
    assert_eq!(twice.unwrap_err().0, BindingKey::new("left"));

    let definition = ViewDefinition::new(
        ViewDefinitionId::new("test.one"),
        vec![BindingKey::new("left")],
    )
    .unwrap();
    let bound_twice = View::with_definition(
        &definition,
        vec![
            (BindingKey::new("left"), ContentId(1)),
            (BindingKey::new("left"), ContentId(2)),
        ],
        None,
    );
    assert!(matches!(
        bound_twice,
        Err(ContentBindingError::Duplicate(binding)) if binding.as_str() == "left"
    ));
}

#[test]
fn selections_count_a_revision_only_when_they_change() {
    let mut view = View::buffer(ContentId(1), ContentViewState::buffer());

    assert!(!view.set_selections(Selections::single(caret(0))));
    assert_eq!(view.revision(), Revision(0));
    assert!(view.set_selections(Selections::single(caret(4))));
    assert_eq!(view.revision(), Revision(1));
    assert_eq!(view.selections().unwrap().primary(), caret(4));
}

#[test]
fn selections_need_a_primary_one() {
    assert!(Selections::new(vec![caret(1)], 1).is_none());
    let selections = Selections::new(vec![caret(1), caret(2)], 1).unwrap();
    assert_eq!(selections.primary(), caret(2));
    assert_eq!(selections.all().len(), 2);
}

#[test]
fn bindings_come_in_the_order_of_their_names() {
    let definition = ViewDefinition::new(
        ViewDefinitionId::new("test.order"),
        vec![BindingKey::new("right"), BindingKey::new("left")],
    )
    .unwrap();
    let view = View::with_definition(
        &definition,
        vec![
            (BindingKey::new("right"), ContentId(2)),
            (BindingKey::new("left"), ContentId(1)),
        ],
        None,
    )
    .unwrap();
    let names: Vec<&str> = view
        .bindings()
        .iter()
        .into_iter()
        .map(|(key, _)| key.as_str())
        .collect();
    assert_eq!(names, vec!["left", "right"]);
    assert!(view.references(ContentId(2)));
    assert!(!view.references(ContentId(3)));
}

#[test]
fn commands_need_a_document() {
    let view = View::buffer(ContentId(8), ContentViewState::buffer());
    let context = require_mode_view_context(ViewId(3), &view).ok().unwrap();
    assert_eq!(context.view, ViewId(3));
    assert_eq!(context.content, ContentId(8));
    assert_eq!(context.state, view.require_document_state());

    let definition =
        ViewDefinition::new(ViewDefinitionId::new("test.bare"), vec![BindingKey::new("left")])
            .unwrap();
    let bare =
        View::with_definition(&definition, vec![(BindingKey::new("left"), ContentId(1))], None)
            .unwrap();
    assert_eq!(
        require_mode_view_context(ViewId(4), &bare).err(),
        Some(ModeContextError::MissingDocument { view: ViewId(4) })
    );
}

#[test]
fn children_are_kept_in_order_and_once() {
    let mut view = View::buffer(ContentId(1), ContentViewState::buffer());
    view.push_child(ViewId(5));
    view.push_child(ViewId(6));
    view.push_child(ViewId(5));
    assert_eq!(view.children(), &vec![ViewId(5), ViewId(6)]);
    assert!(view.replace_child(ViewId(5), ViewId(7)));
    assert!(!view.replace_child(ViewId(5), ViewId(8)));
    view.remove_child(ViewId(6));
    assert_eq!(view.children(), &vec![ViewId(7)]);
}
