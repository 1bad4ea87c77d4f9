//! What a registry takes up, what it refuses and what it always has.

use crate::protocol::{SpaceId, ViewId};
use crate::text::decimal;
use crate::view::compound::{ChildModel, CompoundModel};
use crate::view::definition::{is_first_repeated, DefinitionModel};
use crate::view::extension::document::too_long;
use crate::view::extension::store::{extension_fault_text, ExtensionFault};
use crate::view::layout::{fault_text, WorkspaceFault};
use crate::view::registry::{
    child_fits, compound_refusal, compound_registered, compounds_refusal, compounds_registered,
    core_catalog, names_of_owner, register_refusal, registered, registration_text, Catalog,
    EntryModel, RegistrationFault,
};
use vstd::prelude::*;
use vstd::view::View as _;

verus! {

/// A child of a compound view is of a known definition that has the one role of a document, and
/// has at least one link, all of them for that role.
pub proof fn law_children_are_document_views(entry: EntryModel, child: ChildModel)
    ensures
        child_fits(entry, child) <==> {
            &&& entry.compound is None
            &&& entry.definition.bindings.len() == 1
            &&& entry.definition.bindings[0] == "document"@
            &&& child.links.len() >= 1
            &&& forall|i: int|
                0 <= i < child.links.len() ==> (#[trigger] child.links[i]).child == "document"@
        },
{
    if entry.definition.bindings.len() == 1 && entry.definition.bindings[0] == "document"@ {
        assert(entry.definition.bindings =~= seq!["document"@]);
    }
}

/// A definition is refused exactly where another one has its name. It is known afterwards, as a
/// definition by itself where it is new; all others stay.
pub proof fn law_definition_is_taken_up(
    catalog: Catalog,
    definition: DefinitionModel,
    other: Seq<char>,
)
    ensures
        register_refusal(catalog, definition) is Some <==> catalog.contains_key(definition.id)
            && catalog[definition.id].definition != definition,
        register_refusal(catalog, definition) matches Some(fault) ==> fault
            == RegistrationFault::Conflict(definition.id),
        registered(catalog, definition).contains_key(definition.id),
        register_refusal(catalog, definition) is None ==> registered(
            catalog,
            definition,
        )[definition.id].definition == definition,
        !catalog.contains_key(definition.id) ==> registered(
            catalog,
            definition,
        )[definition.id].compound is None,
        other != definition.id ==> {
            &&& registered(catalog, definition).contains_key(other) == catalog.contains_key(other)
            &&& registered(catalog, definition)[other] == catalog[other]
        },
{
}

/// A compound view is refused exactly where another definition has its name, or, where it is new,
/// one of its children is of an unknown definition or does not fit; the first child counts first.
/// It is known afterwards with its recipe.
pub proof fn law_compound_is_taken_up(
    catalog: Catalog,
    compound: CompoundModel,
    other: Seq<char>,
)
    ensures
        ({
            let id = compound.definition.id;
            let fits = |child: ChildModel|
                catalog.contains_key(child.definition) && child_fits(
                    catalog[child.definition],
                    child,
                );
            let after = compound_registered(catalog, compound);
            &&& catalog.contains_key(id) ==> (compound_refusal(catalog, compound) is None
                <==> catalog[id].compound == Some(compound))
            &&& catalog.contains_key(id) && compound_refusal(catalog, compound) is Some
                ==> compound_refusal(catalog, compound) == Some(RegistrationFault::Conflict(id))
            &&& !catalog.contains_key(id) ==> (compound_refusal(catalog, compound) is None
                <==> fits(
                compound.first,
            ) && fits(compound.second))
            &&& !catalog.contains_key(id) && !catalog.contains_key(compound.first.definition)
                ==> compound_refusal(catalog, compound) == Some(
                RegistrationFault::UnknownChild {
                    definition: id,
                    child: compound.first.key,
                    target: compound.first.definition,
                },
            )
            &&& !catalog.contains_key(id) && fits(compound.first) && !catalog.contains_key(
                compound.second.definition,
            ) ==> compound_refusal(catalog, compound) == Some(
                RegistrationFault::UnknownChild {
                    definition: id,
                    child: compound.second.key,
                    target: compound.second.definition,
                },
            )
            &&& !catalog.contains_key(id) && catalog.contains_key(compound.first.definition)
                && !fits(compound.first) ==> compound_refusal(catalog, compound) == Some(
                RegistrationFault::InvalidChildBindings {
                    definition: id,
                    child: compound.first.key,
                },
            )
            &&& after.contains_key(id)
            &&& !catalog.contains_key(id) ==> after[id].definition == compound.definition
                && after[id].compound == Some(compound)
            &&& other != id ==> after.contains_key(other) == catalog.contains_key(other)
                && after[other] == catalog[other]
        }),
{
}

/// Compound views are taken up one after the other, all of them or none: each is held against what
/// is known with those before it.
pub proof fn law_compounds_are_taken_up_together(
    catalog: Catalog,
    compounds: Seq<CompoundModel>,
)
    ensures
        compounds_refusal(catalog, compounds) is None <==> forall|k: int|
            0 <= k < compounds.len() ==> compound_refusal(
                compounds_registered(catalog, compounds.take(k)),
                #[trigger] compounds[k],
            ) is None,
        compounds_refusal(catalog, compounds) is None ==> forall|k: int|
            0 <= k < compounds.len() ==> compounds_registered(catalog, compounds).contains_key(
                (#[trigger] compounds[k]).definition.id,
            ),
    decreases compounds.len(),
{
    if compounds.len() > 0 {
        let fewer = compounds.drop_last();
        let n = compounds.len() - 1;
        law_compounds_are_taken_up_together(catalog, fewer);
        assert(compounds.take(n) =~= fewer);
        assert forall|k: int| 0 <= k < n implies compounds.take(k) == #[trigger] fewer.take(k) by {
            assert(compounds.take(k) =~= fewer.take(k));
        }
        if compounds_refusal(catalog, compounds) is None {
            assert forall|k: int| 0 <= k < compounds.len() implies compound_refusal(
                compounds_registered(catalog, compounds.take(k)),
                #[trigger] compounds[k],
            ) is None by {
                if k < n {
                    assert(fewer[k] == compounds[k]);
                    assert(compounds.take(k) == fewer.take(k));
                }
            }
            assert forall|k: int| 0 <= k < compounds.len() implies compounds_registered(
                catalog,
                compounds,
            ).contains_key((#[trigger] compounds[k]).definition.id) by {
                if k < n {
                    assert(fewer[k] == compounds[k]);
                }
            }
        }
        if forall|k: int|
            0 <= k < compounds.len() ==> compound_refusal(
                compounds_registered(catalog, compounds.take(k)),
                #[trigger] compounds[k],
            ) is None {
            assert forall|k: int| 0 <= k < fewer.len() implies compound_refusal(
                compounds_registered(catalog, fewer.take(k)),
                #[trigger] fewer[k],
            ) is None by {
                assert(fewer[k] == compounds[k]);
                assert(compounds.take(k) == fewer.take(k));
            }
            assert(compound_refusal(
                compounds_registered(catalog, compounds.take(n)),
                compounds[n],
            ) is None);
        }
    }
}

/// An owner has exactly the compound views that were taken up for it.
pub proof fn law_owner_has_its_compounds(catalog: Catalog, owner: Seq<char>, id: Seq<char>)
    ensures
        names_of_owner(catalog, owner).contains(id) <==> catalog.contains_key(id)
            && catalog[id].compound is Some && catalog[id].compound->0.owner == owner,
{
}

/// From the start there are the view of one document and the diff of two, left beside right, whose
/// sides are views of one document.
pub proof fn law_core_definitions(id: Seq<char>)
    ensures
        core_catalog().contains_key(id) <==> id == "core.buffer"@ || id == "core.diff"@,
        core_catalog()["core.buffer"@].compound is None,
        core_catalog()["core.buffer"@].definition.bindings == seq!["document"@],
        ({
            let entry = core_catalog()["core.diff"@];
            let compound = entry.compound->0;
            &&& entry.definition.bindings == seq!["left"@, "right"@]
            &&& entry.compound is Some
            &&& compound.owner == "core"@
            &&& compound.direction is Horizontal
            &&& compound.first.key == "left"@ && compound.second.key == "right"@
            &&& compound.first.definition == "core.buffer"@
            &&& compound.second.definition == "core.buffer"@
            &&& compound.first.links.len() == 1 && compound.second.links.len() == 1
            &&& compound.first.links[0].child == "document"@ && compound.first.links[0].parent
                == "left"@
            &&& compound.second.links[0].child == "document"@ && compound.second.links[0].parent
                == "right"@
        }),
{
    reveal_strlit("core.buffer");
    reveal_strlit("core.diff");
    assert("core.buffer"@.len() == 11);
    assert("core.diff"@.len() == 9);
}

/// A role that a definition repeats is the one whose second occurrence comes first.
pub proof fn law_repeated_role_is_told(names: Seq<Seq<char>>, name: Seq<char>, other: Seq<char>)
    ensures
        is_first_repeated(names, name) ==> !names.no_duplicates(),
        is_first_repeated(names, name) && is_first_repeated(names, other) ==> name == other,
        !names.no_duplicates() ==> exists|found: Seq<char>| #[trigger]
            is_first_repeated(names, found),
    decreases names.len(),
{
    if is_first_repeated(names, name) && is_first_repeated(names, other) {
        let (a, b) = choose|i: int, j: int|
            0 <= i < j < names.len() && #[trigger] names[i] == #[trigger] names[j] && names[i]
                == name && names.take(j).no_duplicates();
        let (c, d) = choose|i: int, j: int|
            0 <= i < j < names.len() && #[trigger] names[i] == #[trigger] names[j] && names[i]
                == other && names.take(j).no_duplicates();
        if b < d {
            assert(names.take(d)[a] == names.take(d)[b]);
        } else if d < b {
            assert(names.take(b)[c] == names.take(b)[d]);
        }
    }
    if !names.no_duplicates() {
        let n = names.len() - 1;
        let fewer = names.drop_last();
        if fewer.no_duplicates() {
            let (i, j) = choose|i: int, j: int|
                0 <= i < names.len() && 0 <= j < names.len() && i != j && names[i] == names[j];
            assert(fewer =~= names.take(n));
            assert(i == n || j == n) by {
                if i != n && j != n {
                    assert(fewer[i] == fewer[j]);
                }
            }
            let k = if i == n {
                j
            } else {
                i
            };
            assert(names[k] == names[n]);
            assert(is_first_repeated(names, names[n]));
        } else {
            law_repeated_role_is_told(fewer, name, other);
            let found = choose|found: Seq<char>| #[trigger] is_first_repeated(fewer, found);
            let (i, j) = choose|i: int, j: int|
                0 <= i < j < fewer.len() && #[trigger] fewer[i] == #[trigger] fewer[j] && fewer[i]
                    == found && fewer.take(j).no_duplicates();
            assert(names[i] == names[j]);
            assert(names.take(j) =~= fewer.take(j));
            assert(is_first_repeated(names, found));
        }
    }
}

/// What is told of a refused definition, extension or document names what it is about.
pub proof fn law_refusals_name_what_they_are_about(
    definition: Seq<char>,
    child: Seq<char>,
    target: Seq<char>,
    bytes: nat,
    maximum: nat,
)
    ensures
        registration_text(RegistrationFault::Conflict(definition)) == "View definition '"@
            + definition + "' conflicts with an existing definition"@,
        registration_text(RegistrationFault::UnknownChild { definition, child, target })
            == "compound View '"@ + definition + "' child '"@ + child
            + "' targets unknown View definition '"@ + target + "'"@,
        registration_text(RegistrationFault::InvalidChildBindings { definition, child })
            == "compound View '"@ + definition + "' child '"@ + child
            + "' must map every binding of a document leaf View exactly once"@,
        extension_fault_text(ExtensionFault::Duplicate(definition)) == "view extension '"@
            + definition + "' is already registered"@,
        extension_fault_text(ExtensionFault::UnknownTarget { extension: definition, target })
            == "view extension '"@ + definition + "' targets unknown View definition '"@ + target
            + "'"@,
        too_long(bytes, maximum) == "View extension document has "@ + decimal(bytes)
            + " text bytes; maximum is "@ + decimal(maximum),
{
}

/// What is told of an unsound workspace names the views and spaces that it is about.
pub proof fn law_faults_name_what_they_are_about(space: SpaceId, view: ViewId, other: ViewId)
    ensures
        fault_text(WorkspaceFault::MissingViewInScene { space, view }) == "Scene space "@
            + decimal(space.0 as nat) + " references missing View "@ + decimal(view.0 as nat),
        fault_text(WorkspaceFault::SpaceWithoutPane(space)) == "Scene space "@ + decimal(
            space.0 as nat,
        ) + " has no owning PaneKey"@,
        fault_text(WorkspaceFault::StalePane { view, space }) == "View "@ + decimal(view.0 as nat)
            + " owns stale Pane space "@ + decimal(space.0 as nat),
        fault_text(WorkspaceFault::MissingParent { view, parent: other }) == "View "@ + decimal(
            view.0 as nat,
        ) + " has missing semantic parent "@ + decimal(other.0 as nat),
        fault_text(WorkspaceFault::ForeignChild { parent: view, child: other })
            == "semantic parent "@ + decimal(view.0 as nat) + " does not own child "@ + decimal(
            other.0 as nat,
        ),
        fault_text(WorkspaceFault::InvalidChild { view, child: other }) == "View "@ + decimal(
            view.0 as nat,
        ) + " has an invalid semantic child "@ + decimal(other.0 as nat),
        fault_text(WorkspaceFault::InvalidDocumentState(view)) == "View "@ + decimal(view.0 as nat)
            + " has invalid document state"@,
        fault_text(WorkspaceFault::AlreadyHasParent(view)) == "View "@ + decimal(view.0 as nat)
            + " already has a semantic parent"@,
        fault_text(WorkspaceFault::NoSwitchableOwner(view)) == "View "@ + decimal(view.0 as nat)
            + " has no switchable lifecycle owner"@,
        fault_text(WorkspaceFault::CompoundChildCount(view)) == "compound View "@ + decimal(
            view.0 as nat,
        ) + " does not own exactly two children"@,
{
}

} // verus!
