use vell::view::compound::{
    CompoundViewDefinition, CompoundViewDirection, ViewChildBinding, ViewChildDefinition,
    ViewDefinitionOwner,
};
use vell::view::definition::{
    BindingKey, ViewDefinition, ViewDefinitionId, BUFFER_VIEW_DEFINITION, DIFF_VIEW_DEFINITION,
    DOCUMENT_BINDING,
};
use vell::view::registry::{ViewDefinitionRegistrationError, ViewDefinitionRegistry};

#[test]
fn registry_accepts_idempotent_registration_and_rejects_schema_conflicts() {
    let id = ViewDefinitionId::new("test.diff");
    let original = ViewDefinition::new(
        id.clone(),
        vec![BindingKey::new("left"), BindingKey::new("right")],
    )
    .unwrap();
    let conflict = ViewDefinition::new(id.clone(), vec![BindingKey::new("document")]).unwrap();
    let mut registry = ViewDefinitionRegistry::new();

    registry.register(original.clone()).unwrap();
    registry.register(original).unwrap();

    assert_eq!(
        registry.register(conflict),
        Err(ViewDefinitionRegistrationError::Conflict(id))
    );
}

#[test]
fn compound_registration_is_atomic_and_requires_complete_leaf_bindings() {
    let child = |key: &str, binding: &str| {
        ViewChildDefinition::new(
            key,
            ViewDefinitionId::new(BUFFER_VIEW_DEFINITION),
            vec![ViewChildBinding::new(binding, key)],
        )
    };
    let valid = CompoundViewDefinition::new(
        ViewDefinitionId::new("test.valid"),
        ViewDefinitionOwner::new("test"),
        vec![BindingKey::new("left"), BindingKey::new("right")],
        CompoundViewDirection::Horizontal,
        [
            child("left", DOCUMENT_BINDING),
            child("right", DOCUMENT_BINDING),
        ],
    )
    .unwrap();
    let invalid = CompoundViewDefinition::new(
        ViewDefinitionId::new("test.invalid"),
        ViewDefinitionOwner::new("test"),
        vec![BindingKey::new("left"), BindingKey::new("right")],
        CompoundViewDirection::Horizontal,
        [child("left", "missing"), child("right", DOCUMENT_BINDING)],
    )
    .unwrap();
    let mut registry = ViewDefinitionRegistry::new();

    assert!(registry
        .register_compounds(&vec![valid.clone(), invalid])
        .is_err());
    assert!(registry.get(valid.definition().id()).is_none());
}

fn compound(name: &str, owner: &str, first: &str, second: &str) -> CompoundViewDefinition {
    let child = |key: &str, definition: &str| {
        ViewChildDefinition::new(
            key,
            ViewDefinitionId::new(definition),
            vec![ViewChildBinding::new(DOCUMENT_BINDING, key)],
        )
    };
    CompoundViewDefinition::new(
        ViewDefinitionId::new(name),
        ViewDefinitionOwner::new(owner),
        vec![BindingKey::new("left"), BindingKey::new("right")],
        CompoundViewDirection::Vertical,
        [child("left", first), child("right", second)],
    )
    .unwrap()
}

#[test]
fn built_in_definitions_are_known() {
    let registry = ViewDefinitionRegistry::new();
    assert_eq!(registry.buffer().id().as_str(), BUFFER_VIEW_DEFINITION);
    assert!(registry.buffer().declares(DOCUMENT_BINDING));
    let diff = registry
        .compound(&ViewDefinitionId::new(DIFF_VIEW_DEFINITION))
        .unwrap();
    assert_eq!(diff.owner().as_str(), "core");
    assert_eq!(diff.direction(), CompoundViewDirection::Horizontal);
    assert_eq!(diff.first().key(), "left");
    assert_eq!(diff.second().key(), "right");
    let (index, role) = diff
        .child_binding_for_parent(&BindingKey::new("right"))
        .unwrap();
    assert_eq!((index, role.as_str()), (1, DOCUMENT_BINDING));
    assert!(registry
        .compound(&ViewDefinitionId::new(BUFFER_VIEW_DEFINITION))
        .is_none());
}

#[test]
fn unknown_children_are_refused() {
    let mut registry = ViewDefinitionRegistry::new();
    let error = registry
        .register_compound(compound("test.pair", "test", BUFFER_VIEW_DEFINITION, "test.none"))
        .unwrap_err();
    assert_eq!(
        error,
        ViewDefinitionRegistrationError::UnknownChild {
            definition: ViewDefinitionId::new("test.pair"),
            child: "right".to_owned(),
            target: ViewDefinitionId::new("test.none"),
        }
    );
    assert_eq!(
        error.message(),
        "compound View 'test.pair' child 'right' targets unknown View definition 'test.none'"
    );
}

#[test]
fn children_that_are_compounds_are_refused() {
    let mut registry = ViewDefinitionRegistry::new();
    let error = registry
        .register_compound(compound(
            "test.pair",
            "test",
            DIFF_VIEW_DEFINITION,
            BUFFER_VIEW_DEFINITION,
        ))
        .unwrap_err();
    assert_eq!(
        error.message(),
        "compound View 'test.pair' child 'left' must map every binding of a document leaf View \
         exactly once"
    );
}

#[test]
fn conflicting_compounds_are_refused_and_equal_ones_are_not() {
    let mut registry = ViewDefinitionRegistry::new();
    let pair = compound(
        "test.pair",
        "test",
        BUFFER_VIEW_DEFINITION,
        BUFFER_VIEW_DEFINITION,
    );
    registry.register_compound(pair.clone()).unwrap();
    registry.register_compound(pair).unwrap();
    let other = compound(
        "test.pair",
        "other",
        BUFFER_VIEW_DEFINITION,
        BUFFER_VIEW_DEFINITION,
    );
    let error = registry.register_compound(other).unwrap_err();
    assert_eq!(
        error.message(),
        "View definition 'test.pair' conflicts with an existing definition"
    );
}

#[test]
fn removing_an_owner_takes_its_compounds_away() {
    let mut registry = ViewDefinitionRegistry::new();
    registry
        .register_compounds(&vec![
            compound("test.a", "mine", BUFFER_VIEW_DEFINITION, BUFFER_VIEW_DEFINITION),
            compound("test.b", "mine", BUFFER_VIEW_DEFINITION, BUFFER_VIEW_DEFINITION),
            compound("test.c", "other", BUFFER_VIEW_DEFINITION, BUFFER_VIEW_DEFINITION),
        ])
        .unwrap();
    let mut ids: Vec<String> = registry
        .ids_for_owner(&ViewDefinitionOwner::new("mine"))
        .iter()
        .map(|id| id.as_str().to_owned())
        .collect();
    ids.sort();
    assert_eq!(ids, vec!["test.a".to_owned(), "test.b".to_owned()]);

    assert_eq!(registry.remove_owner(&ViewDefinitionOwner::new("mine")), 2);
    assert_eq!(registry.remove_owner(&ViewDefinitionOwner::new("mine")), 0);
    assert_eq!(registry.remove_owner(&ViewDefinitionOwner::new("core")), 0);
    assert!(registry.get(&ViewDefinitionId::new("test.a")).is_none());
    assert!(registry.get(&ViewDefinitionId::new("test.c")).is_some());
    assert!(registry
        .get(&ViewDefinitionId::new(DIFF_VIEW_DEFINITION))
        .is_some());
}

#[test]
fn a_compound_that_declares_a_role_twice_is_refused() {
    let child = |key: &str| {
        ViewChildDefinition::new(key, ViewDefinitionId::new(BUFFER_VIEW_DEFINITION), Vec::new())
    };
    let names = ["left", "right", "base", "right", "left"];
    let result = CompoundViewDefinition::new(
        ViewDefinitionId::new("test.twice"),
        ViewDefinitionOwner::new("test"),
        names.iter().map(|name| BindingKey::new(name)).collect(),
        CompoundViewDirection::Vertical,
        [child("left"), child("right")],
    );
    assert_eq!(result.unwrap_err().0, BindingKey::new("right"));
}
