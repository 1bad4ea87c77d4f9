//! The definitions that views are made of.

use crate::text::same_text;
use crate::view::compound::{
    links_of, ChildModel, CompoundModel, CompoundViewDefinition, CompoundViewDirection, LinkModel,
    ViewChildBinding, ViewChildDefinition, ViewDefinitionOwner,
};
use crate::view::definition::{
    names_of, BUFFER_VIEW_DEFINITION, BindingKey, DIFF_VIEW_DEFINITION, DOCUMENT_BINDING,
    DefinitionModel, LEFT_BINDING, RIGHT_BINDING, ViewDefinition, ViewDefinitionId,
};
use vstd::prelude::*;
use vstd::string::StringExecFns;

verus! {

/// Who the built-in definitions belong to.
pub const CORE_OWNER: &'static str = "core";

/// A definition that is known, with its parts where it is made of other views.
#[verifier::ext_equal]
pub struct EntryModel {
    pub definition: DefinitionModel,
    pub compound: Option<CompoundModel>,
}

/// Known definitions by their names.
pub type Catalog = Map<Seq<char>, EntryModel>;

/// Why a definition cannot be taken up.
pub enum RegistrationFault {
    Conflict(Seq<char>),
    UnknownChild { definition: Seq<char>, child: Seq<char>, target: Seq<char> },
    InvalidChildBindings { definition: Seq<char>, child: Seq<char> },
}

/// Why a definition cannot be taken up.
#[derive(Debug, PartialEq, Eq)]
pub enum ViewDefinitionRegistrationError {
    /// Another definition has the name.
    Conflict(ViewDefinitionId),
    /// No definition has the name of a child's definition.
    UnknownChild { definition: ViewDefinitionId, child: String, target: ViewDefinitionId },
    /// A child does not take every content from its parent, or is not a view on one document.
    InvalidChildBindings { definition: ViewDefinitionId, child: String },
}

impl ViewDefinitionRegistrationError {
    pub open spec fn model(self) -> RegistrationFault {
        match self {
            ViewDefinitionRegistrationError::Conflict(id) => RegistrationFault::Conflict(id.name()),
            ViewDefinitionRegistrationError::UnknownChild { definition, child, target } =>
                RegistrationFault::UnknownChild {
                    definition: definition.name(),
                    child: child@,
                    target: target.name(),
                },
            ViewDefinitionRegistrationError::InvalidChildBindings { definition, child } =>
                RegistrationFault::InvalidChildBindings {
                    definition: definition.name(),
                    child: child@,
                },
        }
    }

    /// What went wrong, in words.
    pub fn message(&self) -> (message: String)
        ensures
            message@ == registration_text(self.model()),
    {
        match self {
            ViewDefinitionRegistrationError::Conflict(definition) => {
                let mut message = String::from_str("View definition '");
                message.append(definition.as_str());
                message.append("' conflicts with an existing definition");
                message
            },
            ViewDefinitionRegistrationError::UnknownChild { definition, child, target } => {
                let mut message = String::from_str("compound View '");
                message.append(definition.as_str());
                message.append("' child '");
                message.append(child.as_str());
                message.append("' targets unknown View definition '");
                message.append(target.as_str());
                message.append("'");
                message
            },
            ViewDefinitionRegistrationError::InvalidChildBindings { definition, child } => {
                let mut message = String::from_str("compound View '");
                message.append(definition.as_str());
                message.append("' child '");
                message.append(child.as_str());
                message.append("' must map every binding of a document leaf View exactly once");
                message
            },
        }
    }
}

/// What went wrong, in words.
pub open spec fn registration_text(fault: RegistrationFault) -> Seq<char> {
    match fault {
        RegistrationFault::Conflict(definition) => "View definition '"@ + definition
            + "' conflicts with an existing definition"@,
        RegistrationFault::UnknownChild { definition, child, target } => "compound View '"@
            + definition + "' child '"@ + child + "' targets unknown View definition '"@ + target
            + "'"@,
        RegistrationFault::InvalidChildBindings { definition, child } => "compound View '"@
            + definition + "' child '"@ + child
            + "' must map every binding of a document leaf View exactly once"@,
    }
}

/// A child fits its definition: that is a view on one document, which the child takes from its
/// parent.
pub open spec fn child_fits(entry: EntryModel, child: ChildModel) -> bool {
    &&& entry.compound is None
    &&& entry.definition.bindings == seq![DOCUMENT_BINDING@]
    &&& child.links.len() > 0
    &&& forall|i: int|
        0 <= i < child.links.len() ==> (#[trigger] child.links[i]).child == DOCUMENT_BINDING@
}

/// Why a child cannot be part of a compound view.
pub open spec fn child_refusal(
    catalog: Catalog,
    definition: Seq<char>,
    child: ChildModel,
) -> Option<RegistrationFault> {
    if !catalog.contains_key(child.definition) {
        Some(
            RegistrationFault::UnknownChild {
                definition,
                child: child.key,
                target: child.definition,
            },
        )
    } else if !child_fits(catalog[child.definition], child) {
        Some(RegistrationFault::InvalidChildBindings { definition, child: child.key })
    } else {
        None
    }
}

/// Why a definition cannot be taken up.
pub open spec fn register_refusal(
    catalog: Catalog,
    definition: DefinitionModel,
) -> Option<RegistrationFault> {
    if catalog.contains_key(definition.id) && catalog[definition.id].definition != definition {
        Some(RegistrationFault::Conflict(definition.id))
    } else {
        None
    }
}

/// The definitions once another one is taken up.
pub open spec fn registered(catalog: Catalog, definition: DefinitionModel) -> Catalog {
    if catalog.contains_key(definition.id) {
        catalog
    } else {
        catalog.insert(definition.id, EntryModel { definition, compound: None })
    }
}

/// Why a compound definition cannot be taken up.
pub open spec fn compound_refusal(catalog: Catalog, compound: CompoundModel) -> Option<
    RegistrationFault,
> {
    let id = compound.definition.id;
    if catalog.contains_key(id) {
        if catalog[id].compound == Some(compound) {
            None
        } else {
            Some(RegistrationFault::Conflict(id))
        }
    } else {
        match child_refusal(catalog, id, compound.first) {
            Some(fault) => Some(fault),
            None => child_refusal(catalog, id, compound.second),
        }
    }
}

/// The definitions once a compound one is taken up.
pub open spec fn compound_registered(catalog: Catalog, compound: CompoundModel) -> Catalog {
    let id = compound.definition.id;
    if catalog.contains_key(id) {
        catalog
    } else {
        catalog.insert(
            id,
            EntryModel { definition: compound.definition, compound: Some(compound) },
        )
    }
}

/// Why some compound definitions cannot be taken up one after the other.
pub open spec fn compounds_refusal(catalog: Catalog, compounds: Seq<CompoundModel>) -> Option<
    RegistrationFault,
>
    decreases compounds.len(),
{
    if compounds.len() == 0 {
        None
    } else {
        match compounds_refusal(catalog, compounds.drop_last()) {
            Some(fault) => Some(fault),
            None => compound_refusal(
                compounds_registered(catalog, compounds.drop_last()),
                compounds.last(),
            ),
        }
    }
}

/// The definitions once some compound ones are taken up one after the other.
pub open spec fn compounds_registered(catalog: Catalog, compounds: Seq<CompoundModel>) -> Catalog
    decreases compounds.len(),
{
    if compounds.len() == 0 {
        catalog
    } else {
        compound_registered(
            compounds_registered(catalog, compounds.drop_last()),
            compounds.last(),
        )
    }
}

/// The definition is a compound one of that owner.
pub open spec fn owned_by(entry: EntryModel, owner: Seq<char>) -> bool {
    entry.compound matches Some(compound) && compound.owner == owner
}

/// The names of the compound definitions of an owner.
pub open spec fn names_of_owner(catalog: Catalog, owner: Seq<char>) -> Set<Seq<char>> {
    catalog.dom().filter(|id: Seq<char>| owned_by(catalog[id], owner))
}

/// The compound definitions.
pub open spec fn models_of(compounds: Seq<CompoundViewDefinition>) -> Seq<CompoundModel> {
    compounds.map_values(|compound: CompoundViewDefinition| compound.model())
}

/// A known definition.
struct RegisteredViewDefinition {
    definition: ViewDefinition,
    compound: Option<CompoundViewDefinition>,
}

impl RegisteredViewDefinition {
    spec fn model(self) -> EntryModel {
        EntryModel {
            definition: self.definition.model(),
            compound: match self.compound {
                Some(compound) => Some(compound.model()),
                None => None,
            },
        }
    }

    fn copy(&self) -> (copy: Self)
        ensures
            copy.model() == self.model(),
    {
        RegisteredViewDefinition {
            definition: self.definition.clone(),
            compound: match &self.compound {
                Some(compound) => Some(compound.clone()),
                None => None,
            },
        }
    }
}

/// What is known of definitions.
spec fn entries_of(entries: Seq<RegisteredViewDefinition>) -> Seq<EntryModel> {
    entries.map_values(|entry: RegisteredViewDefinition| entry.model())
}

/// Where the definition with a name stands.
spec fn at(entries: Seq<EntryModel>, id: Seq<char>, i: int) -> bool {
    0 <= i < entries.len() && entries[i].definition.id == id
}

/// The definitions by their names.
spec fn catalog_of(entries: Seq<EntryModel>) -> Catalog {
    Map::new(
        |id: Seq<char>| exists|i: int| at(entries, id, i),
        |id: Seq<char>| entries[choose|i: int| at(entries, id, i)],
    )
}

/// No two definitions have the same name.
spec fn ids_differ(entries: Seq<EntryModel>) -> bool {
    forall|i: int, j: int|
        0 <= i < j < entries.len() ==> (#[trigger] entries[i]).definition.id != (
        #[trigger] entries[j]).definition.id
}

/// The built-in definition of views on one document.
pub open spec fn buffer_entry() -> EntryModel {
    EntryModel {
        definition: DefinitionModel {
            id: BUFFER_VIEW_DEFINITION@,
            bindings: seq![DOCUMENT_BINDING@],
        },
        compound: None,
    }
}

/// A child of the built-in diff view.
pub open spec fn diff_child(key: Seq<char>, role: Seq<char>) -> ChildModel {
    ChildModel {
        key,
        definition: BUFFER_VIEW_DEFINITION@,
        links: seq![LinkModel { child: DOCUMENT_BINDING@, parent: role }],
    }
}

/// The built-in diff view.
pub open spec fn diff_compound() -> CompoundModel {
    CompoundModel {
        definition: DefinitionModel {
            id: DIFF_VIEW_DEFINITION@,
            bindings: seq![LEFT_BINDING@, RIGHT_BINDING@],
        },
        owner: CORE_OWNER@,
        direction: CompoundViewDirection::Horizontal,
        first: diff_child("left"@, LEFT_BINDING@),
        second: diff_child("right"@, RIGHT_BINDING@),
    }
}

/// The built-in definitions.
pub open spec fn core_catalog() -> Catalog {
    compound_registered(
        Map::empty().insert(BUFFER_VIEW_DEFINITION@, buffer_entry()),
        diff_compound(),
    )
}

proof fn lemma_catalog(entries: Seq<EntryModel>, id: Seq<char>, i: int)
    requires
        ids_differ(entries),
        at(entries, id, i),
    ensures
        catalog_of(entries).contains_key(id),
        catalog_of(entries)[id] == entries[i],
{
    let k = choose|k: int| at(entries, id, k);
    assert(at(entries, id, k));
    assert(k == i);
}

proof fn lemma_catalog_push(entries: Seq<EntryModel>, entry: EntryModel)
    requires
        ids_differ(entries),
        !catalog_of(entries).contains_key(entry.definition.id),
    ensures
        ids_differ(entries.push(entry)),
        catalog_of(entries.push(entry)) == catalog_of(entries).insert(entry.definition.id, entry),
{
    let after = entries.push(entry);
    let id = entry.definition.id;
    assert forall|i: int, j: int| 0 <= i < j < after.len() implies (#[trigger] after[i]).definition.id
        != (#[trigger] after[j]).definition.id by {
        if j == entries.len() && after[i].definition.id == id {
            assert(at(entries, id, i));
        }
    }
    let expected = catalog_of(entries).insert(id, entry);
    assert forall|other: Seq<char>|
        #[trigger] catalog_of(after).contains_key(other) == expected.contains_key(other) && (
        expected.contains_key(other) ==> catalog_of(after)[other] == expected[other]) by {
        if other == id {
            assert(at(after, id, entries.len() as int));
            lemma_catalog(after, id, entries.len() as int);
        } else {
            if catalog_of(entries).contains_key(other) {
                let i = choose|i: int| at(entries, other, i);
                assert(at(after, other, i));
                lemma_catalog(entries, other, i);
                lemma_catalog(after, other, i);
            }
            if catalog_of(after).contains_key(other) {
                let i = choose|i: int| at(after, other, i);
                assert(at(entries, other, i));
            }
        }
    }
    assert(catalog_of(after) =~= expected);
}

/// The definitions that views are made of, by their names.
pub struct ViewDefinitionRegistry {
    entries: Vec<RegisteredViewDefinition>,
}

impl ViewDefinitionRegistry {
    /// The definitions by their names.
    pub closed spec fn model(self) -> Catalog {
        catalog_of(entries_of(self.entries@))
    }

    #[verifier::type_invariant]
    spec fn well_kept(self) -> bool {
        &&& ids_differ(entries_of(self.entries@))
        &&& self.model().contains_key(BUFFER_VIEW_DEFINITION@)
        &&& self.model()[BUFFER_VIEW_DEFINITION@] == buffer_entry()
    }

    /// The built-in definitions.
    pub fn new() -> (registry: Self)
        ensures
            registry.model() == core_catalog(),
    {
        let mut entries: Vec<RegisteredViewDefinition> = Vec::new();
        let ghost none = entries_of(entries@);
        assert(none.len() == 0);
        let entry = RegisteredViewDefinition { definition: ViewDefinition::buffer(), compound: None };
        entries.push(entry);
        proof {
            assert(entries_of(entries@) =~= none.push(buffer_entry()));
            assert(catalog_of(none) =~= Map::empty());
            lemma_catalog_push(none, buffer_entry());
        }
        let mut registry = ViewDefinitionRegistry { entries };
        let mut bindings: Vec<BindingKey> = Vec::new();
        bindings.push(BindingKey::new(LEFT_BINDING));
        bindings.push(BindingKey::new(RIGHT_BINDING));
        proof {
            reveal_strlit("left");
            reveal_strlit("right");
            assert(LEFT_BINDING@.len() == 4);
            assert(RIGHT_BINDING@.len() == 5);
            assert(names_of(bindings@) =~= seq![LEFT_BINDING@, RIGHT_BINDING@]);
        }
        let left = Self::buffer_child("left", LEFT_BINDING);
        let right = Self::buffer_child("right", RIGHT_BINDING);
        match CompoundViewDefinition::new(
            ViewDefinitionId::new(DIFF_VIEW_DEFINITION),
            ViewDefinitionOwner::new(CORE_OWNER),
            bindings,
            CompoundViewDirection::Horizontal,
            [left, right],
        ) {
            Ok(compound) => {
                assert(compound.model() =~= diff_compound());
                proof {
                    reveal_strlit("core.buffer");
                    reveal_strlit("core.diff");
                    assert(BUFFER_VIEW_DEFINITION@.len() == 11);
                    assert(DIFF_VIEW_DEFINITION@.len() == 9);
                    assert(child_fits(buffer_entry(), diff_compound().first));
                    assert(child_fits(buffer_entry(), diff_compound().second));
                }
                match registry.register_compound(compound) {
                    Ok(_) => {},
                    Err(_) => {
                        assert(false);
                    },
                }
            },
            Err(_) => {
                assert(false);
            },
        }
        registry
    }

    /// A child that is a view on one document.
    fn buffer_child(key: &str, role: &str) -> (child: ViewChildDefinition)
        ensures
            child.model() == diff_child(key@, role@),
    {
        let mut bindings: Vec<ViewChildBinding> = Vec::new();
        bindings.push(ViewChildBinding::new(DOCUMENT_BINDING, role));
        let child = ViewChildDefinition::new(
            key,
            ViewDefinitionId::new(BUFFER_VIEW_DEFINITION),
            bindings,
        );
        assert(child.model().links =~= diff_child(key@, role@).links);
        child
    }

    /// Where the definition with a name stands.
    fn find(&self, id: &str) -> (index: Option<usize>)
        ensures
            match index {
                Some(i) => {
                    &&& i < self.entries@.len()
                    &&& self.model().contains_key(id@)
                    &&& self.model()[id@] == self.entries@[i as int].model()
                },
                None => !self.model().contains_key(id@),
            },
    {
        proof {
            use_type_invariant(self);
        }
        let ghost entries = entries_of(self.entries@);
        let mut i: usize = 0;
        while i < self.entries.len()
            invariant
                i <= self.entries.len(),
                entries == entries_of(self.entries@),
                ids_differ(entries),
                self.model() == catalog_of(entries),
                forall|j: int| 0 <= j < i ==> !at(entries, id@, j),
            decreases self.entries.len() - i,
        {
            assert(entries[i as int] == self.entries@[i as int].model());
            if same_text(self.entries[i].definition.id().as_str(), id) {
                proof {
                    assert(at(entries, id@, i as int));
                    lemma_catalog(entries, id@, i as int);
                }
                return Some(i);
            }
            i = i + 1;
        }
        None
    }

    /// Takes a definition up, where no other one has its name.
    pub fn register(&mut self, definition: ViewDefinition) -> (result: Result<
        (),
        ViewDefinitionRegistrationError,
    >)
        ensures
            match result {
                Ok(_) => {
                    &&& register_refusal(old(self).model(), definition.model()) is None
                    &&& final(self).model() == registered(old(self).model(), definition.model())
                },
                Err(error) => {
                    &&& register_refusal(old(self).model(), definition.model()) == Some(
                        error.model(),
                    )
                    &&& final(self).model() == old(self).model()
                },
            },
    {
        match self.find(definition.id().as_str()) {
            Some(i) => {
                if self.entries[i].definition.same(&definition) {
                    Ok(())
                } else {
                    Err(ViewDefinitionRegistrationError::Conflict(definition.id().clone()))
                }
            },
            None => {
                self.add(RegisteredViewDefinition { definition, compound: None });
                Ok(())
            },
        }
    }

    /// Adds a definition with a name of its own.
    fn add(&mut self, entry: RegisteredViewDefinition)
        requires
            !old(self).model().contains_key(entry.model().definition.id),
        ensures
            final(self).model() == old(self).model().insert(
                entry.model().definition.id,
                entry.model(),
            ),
    {
        proof {
            use_type_invariant(&*self);
        }
        let ghost before = entries_of(self.entries@);
        let ghost model = entry.model();
        let mut entries = self.copied();
        let ghost copied = entries_of(entries@);
        entries.push(entry);
        proof {
            assert(entries_of(entries@) =~= copied.push(model));
            lemma_catalog_push(before, model);
        }
        self.entries = entries;
    }

    /// A copy of the entries.
    fn copied(&self) -> (entries: Vec<RegisteredViewDefinition>)
        ensures
            entries_of(entries@) == entries_of(self.entries@),
    {
        let ghost all = entries_of(self.entries@);
        let mut entries: Vec<RegisteredViewDefinition> = Vec::new();
        let mut i: usize = 0;
        while i < self.entries.len()
            invariant
                i <= self.entries.len(),
                all == entries_of(self.entries@),
                entries_of(entries@) =~= all.take(i as int),
            decreases self.entries.len() - i,
        {
            let ghost before = entries@;
            let entry = self.entries[i].copy();
            entries.push(entry);
            assert(all[i as int] == entry.model());
            assert(entries_of(entries@) =~= entries_of(before).push(entry.model()));
            assert(all.take(i + 1) =~= all.take(i as int).push(entry.model()));
            i = i + 1;
        }
        assert(all.take(i as int) =~= all);
        entries
    }

    /// Takes a compound definition up, where no other one has its name and its children fit.
    pub fn register_compound(&mut self, compound: CompoundViewDefinition) -> (result: Result<
        (),
        ViewDefinitionRegistrationError,
    >)
        ensures
            match result {
                Ok(_) => {
                    &&& compound_refusal(old(self).model(), compound.model()) is None
                    &&& final(self).model() == compound_registered(
                        old(self).model(),
                        compound.model(),
                    )
                },
                Err(error) => {
                    &&& compound_refusal(old(self).model(), compound.model()) == Some(error.model())
                    &&& final(self).model() == old(self).model()
                },
            },
    {
        let id = compound.definition().id();
        if let Some(i) = self.find(id.as_str()) {
            let same = match &self.entries[i].compound {
                Some(existing) => existing.same(&compound),
                None => false,
            };
            if same {
                return Ok(());
            }
            return Err(ViewDefinitionRegistrationError::Conflict(id.clone()));
        }
        match self.check_child(id, compound.first()) {
            Ok(_) => {},
            Err(error) => {
                return Err(error);
            },
        }
        match self.check_child(id, compound.second()) {
            Ok(_) => {},
            Err(error) => {
                return Err(error);
            },
        }
        let definition = compound.definition().clone();
        self.add(RegisteredViewDefinition { definition, compound: Some(compound) });
        Ok(())
    }

    /// Checks one child of a compound definition.
    fn check_child(&self, id: &ViewDefinitionId, child: &ViewChildDefinition) -> (result: Result<
        (),
        ViewDefinitionRegistrationError,
    >)
        ensures
            match result {
                Ok(_) => child_refusal(self.model(), id.name(), child.model()) is None,
                Err(error) => child_refusal(self.model(), id.name(), child.model()) == Some(
                    error.model(),
                ),
            },
    {
        let target = match self.find(child.definition().as_str()) {
            Some(i) => &self.entries[i],
            None => {
                return Err(
                    ViewDefinitionRegistrationError::UnknownChild {
                        definition: id.clone(),
                        child: String::from_str(child.key()),
                        target: child.definition().clone(),
                    },
                );
            },
        };
        let roles = target.definition.bindings();
        let bindings = child.bindings();
        let ghost links = links_of(bindings@);
        let declares = target.definition.declares(DOCUMENT_BINDING);
        let mut fits = target.compound.is_none() && declares && roles.len() == 1
            && bindings.len() > 0;
        proof {
            let names = target.definition.model().bindings;
            assert(names.len() == roles@.len());
            if names == seq![DOCUMENT_BINDING@] {
                assert(names[0] == DOCUMENT_BINDING@);
                assert(names.contains(DOCUMENT_BINDING@));
            }
            if names.len() == 1 && names.contains(DOCUMENT_BINDING@) {
                assert(names =~= seq![DOCUMENT_BINDING@]);
            }
            assert(links.len() == bindings@.len());
        }
        let ghost start = fits;
        let mut i: usize = 0;
        while i < bindings.len()
            invariant
                i <= bindings.len(),
                links == links_of(bindings@),
                fits == (start && forall|j: int|
                    0 <= j < i ==> (#[trigger] links[j]).child == DOCUMENT_BINDING@),
            decreases bindings.len() - i,
        {
            assert(links[i as int] == bindings@[i as int].model());
            if !same_text(bindings[i].child().as_str(), DOCUMENT_BINDING) {
                fits = false;
            }
            i = i + 1;
        }
        assert(fits == child_fits(target.model(), child.model()));
        if !fits {
            return Err(
                ViewDefinitionRegistrationError::InvalidChildBindings {
                    definition: id.clone(),
                    child: String::from_str(child.key()),
                },
            );
        }
        Ok(())
    }

    /// Takes compound definitions up, all of them or none.
    pub fn register_compounds(&mut self, definitions: &Vec<CompoundViewDefinition>) -> (result: Result<
        (),
        ViewDefinitionRegistrationError,
    >)
        ensures
            match result {
                Ok(_) => {
                    &&& compounds_refusal(old(self).model(), models_of(definitions@)) is None
                    &&& final(self).model() == compounds_registered(
                        old(self).model(),
                        models_of(definitions@),
                    )
                },
                Err(error) => {
                    &&& compounds_refusal(old(self).model(), models_of(definitions@)) == Some(
                        error.model(),
                    )
                    &&& *final(self) == *old(self)
                },
            },
    {
        let ghost before = self.model();
        let ghost all = models_of(definitions@);
        let mut candidate = self.clone();
        let mut i: usize = 0;
        assert(all.take(0) =~= Seq::empty());
        while i < definitions.len()
            invariant
                i <= definitions.len(),
                before == old(self).model(),
                all == models_of(definitions@),
                compounds_refusal(before, all.take(i as int)) is None,
                candidate.model() == compounds_registered(before, all.take(i as int)),
            decreases definitions.len() - i,
        {
            let compound = definitions[i].clone();
            assert(all[i as int] == compound.model());
            assert(all.take(i + 1).drop_last() =~= all.take(i as int));
            match candidate.register_compound(compound) {
                Ok(_) => {},
                Err(error) => {
                    proof {
                        assert(all.take(i + 1).last() == all[i as int]);
                        lemma_refusal_stays(before, all, i + 1);
                    }
                    return Err(error);
                },
            }
            i = i + 1;
        }
        assert(all.take(i as int) =~= all);
        *self = candidate;
        Ok(())
    }

    /// The definition with a name.
    pub fn get(&self, id: &ViewDefinitionId) -> (definition: Option<&ViewDefinition>)
        ensures
            match definition {
                Some(definition) => self.model().contains_key(id.name())
                    && self.model()[id.name()].definition == definition.model(),
                None => !self.model().contains_key(id.name()),
            },
    {
        match self.find(id.as_str()) {
            Some(i) => Some(&self.entries[i].definition),
            None => None,
        }
    }

    /// The compound definition with a name.
    pub fn compound(&self, id: &ViewDefinitionId) -> (compound: Option<&CompoundViewDefinition>)
        ensures
            match compound {
                Some(compound) => self.model().contains_key(id.name())
                    && self.model()[id.name()].compound == Some(compound.model()),
                None => !self.model().contains_key(id.name())
                    || self.model()[id.name()].compound is None,
            },
    {
        match self.find(id.as_str()) {
            Some(i) => match &self.entries[i].compound {
                Some(compound) => Some(compound),
                None => None,
            },
            None => None,
        }
    }

    /// The names of the compound definitions of an owner, each once.
    pub fn ids_for_owner(&self, owner: &ViewDefinitionOwner) -> (ids: Vec<ViewDefinitionId>)
        ensures
            id_names(ids@).no_duplicates(),
            id_names(ids@).to_set() == names_of_owner(self.model(), owner.name()),
    {
        proof {
            use_type_invariant(self);
        }
        let ghost entries = entries_of(self.entries@);
        let mut ids: Vec<ViewDefinitionId> = Vec::new();
        let mut i: usize = 0;
        while i < self.entries.len()
            invariant
                i <= self.entries.len(),
                entries == entries_of(self.entries@),
                ids_differ(entries),
                id_names(ids@).no_duplicates(),
                forall|id: Seq<char>|
                    id_names(ids@).contains(id) <==> exists|j: int|
                        0 <= j < i && #[trigger] at(entries, id, j) && owned_by(
                            entries[j],
                            owner.name(),
                        ),
            decreases self.entries.len() - i,
        {
            let entry = &self.entries[i];
            assert(entries[i as int] == entry.model());
            let owned = match &entry.compound {
                Some(compound) => same_text(compound.owner().as_str(), owner.as_str()),
                None => false,
            };
            let ghost before = id_names(ids@);
            let ghost name = entries[i as int].definition.id;
            assert(at(entries, name, i as int));
            if owned {
                let id = entry.definition.id().clone();
                ids.push(id);
                proof {
                    assert(id_names(ids@) =~= before.push(name));
                    if before.contains(name) {
                        let j = choose|j: int|
                            0 <= j < i && #[trigger] at(entries, name, j) && owned_by(
                                entries[j],
                                owner.name(),
                            );
                        assert(entries[j].definition.id != entries[i as int].definition.id);
                    }
                    assert forall|id: Seq<char>|
                        id_names(ids@).contains(id) <==> exists|j: int|
                            0 <= j < i + 1 && #[trigger] at(entries, id, j) && owned_by(
                                entries[j],
                                owner.name(),
                            ) by {
                        let now = id_names(ids@);
                        if now.contains(id) {
                            let k = choose|k: int| 0 <= k < now.len() && now[k] == id;
                            if k < before.len() {
                                assert(before[k] == id);
                                assert(before.contains(id));
                            } else {
                                assert(at(entries, id, i as int));
                            }
                        }
                        if before.contains(id) {
                            let k = choose|k: int| 0 <= k < before.len() && before[k] == id;
                            assert(now[k] == id);
                        }
                        if id == name {
                            assert(now[before.len() as int] == id);
                        }
                    }
                }
            }
            i = i + 1;
        }
        proof {
            let names = names_of_owner(self.model(), owner.name());
            assert forall|id: Seq<char>| id_names(ids@).to_set().contains(id) == names.contains(
                id,
            ) by {
                if id_names(ids@).contains(id) {
                    let j = choose|j: int|
                        0 <= j < entries.len() && #[trigger] at(entries, id, j) && owned_by(
                            entries[j],
                            owner.name(),
                        );
                    lemma_catalog(entries, id, j);
                }
                if names.contains(id) {
                    let j = choose|j: int| at(entries, id, j);
                    lemma_catalog(entries, id, j);
                }
            }
            assert(id_names(ids@).to_set() =~= names);
        }
        ids
    }

    /// Forgets the compound definitions of an owner, and tells how many there were. Built-in
    /// definitions stay.
    pub fn remove_owner(&mut self, owner: &ViewDefinitionOwner) -> (removed: usize)
        ensures
            if owner.name() == CORE_OWNER@ {
                removed == 0 && final(self).model() == old(self).model()
            } else {
                &&& names_of_owner(old(self).model(), owner.name()).finite()
                &&& removed == names_of_owner(old(self).model(), owner.name()).len()
                &&& final(self).model() == old(self).model().remove_keys(
                    names_of_owner(old(self).model(), owner.name()),
                )
            },
    {
        if same_text(owner.as_str(), CORE_OWNER) {
            return 0;
        }
        proof {
            use_type_invariant(&*self);
        }
        let ids = self.ids_for_owner(owner);
        let ghost before = entries_of(self.entries@);
        let ghost gone = names_of_owner(self.model(), owner.name());
        let mut entries: Vec<RegisteredViewDefinition> = Vec::new();
        let mut i: usize = 0;
        assert(catalog_of(entries_of(entries@)) =~= catalog_of(before.take(0)).remove_keys(gone));
        while i < self.entries.len()
            invariant
                i <= self.entries.len(),
                before == entries_of(self.entries@),
                ids_differ(before),
                gone == names_of_owner(catalog_of(before), owner.name()),
                ids_differ(entries_of(entries@)),
                catalog_of(entries_of(entries@)) == catalog_of(before.take(i as int)).remove_keys(
                    gone,
                ),
            decreases self.entries.len() - i,
        {
            let entry = self.entries[i].copy();
            let ghost model = entry.model();
            let ghost taken = before.take(i as int);
            let ghost kept = entries_of(entries@);
            proof {
                assert(before[i as int] == model);
                assert(before.take(i + 1) =~= taken.push(model));
                assert(at(before, model.definition.id, i as int));
                lemma_catalog(before, model.definition.id, i as int);
                if catalog_of(taken).contains_key(model.definition.id) {
                    let k = choose|k: int| at(taken, model.definition.id, k);
                    assert(before[k].definition.id != before[i as int].definition.id);
                }
                assert forall|a: int, b: int| 0 <= a < b < taken.len() implies (
                #[trigger] taken[a]).definition.id != (#[trigger] taken[b]).definition.id by {
                    assert(taken[a] == before[a]);
                    assert(taken[b] == before[b]);
                }
                lemma_catalog_push(taken, model);
            }
            let owned = match &entry.compound {
                Some(compound) => same_text(compound.owner().as_str(), owner.as_str()),
                None => false,
            };
            assert(owned == gone.contains(model.definition.id));
            if !owned {
                entries.push(entry);
                proof {
                    assert(entries_of(entries@) =~= kept.push(model));
                    assert(!catalog_of(kept).contains_key(model.definition.id));
                    lemma_catalog_push(kept, model);
                    assert(catalog_of(entries_of(entries@)) =~= catalog_of(
                        before.take(i + 1),
                    ).remove_keys(gone));
                }
            } else {
                assert(catalog_of(before.take(i + 1)).remove_keys(gone) =~= catalog_of(
                    taken,
                ).remove_keys(gone));
            }
            i = i + 1;
        }
        proof {
            assert(before.take(i as int) =~= before);
            id_names(ids@).unique_seq_to_set();
            assert(id_names(ids@).len() == ids@.len());
            let model = catalog_of(entries_of(entries@));
            assert(!gone.contains(BUFFER_VIEW_DEFINITION@));
            assert(model.contains_key(BUFFER_VIEW_DEFINITION@));
        }
        self.entries = entries;
        ids.len()
    }

    /// The built-in definition of views on one document.
    pub fn buffer(&self) -> (definition: &ViewDefinition)
        ensures
            definition.model() == buffer_entry().definition,
    {
        proof {
            use_type_invariant(self);
        }
        match self.find(BUFFER_VIEW_DEFINITION) {
            Some(i) => &self.entries[i].definition,
            None => vstd::pervasive::unreached(),
        }
    }
}

impl Clone for ViewDefinitionRegistry {
    fn clone(&self) -> (copy: Self)
        ensures
            copy.model() == self.model(),
    {
        proof {
            use_type_invariant(self);
        }
        ViewDefinitionRegistry { entries: self.copied() }
    }
}

/// The names of definitions.
pub open spec fn id_names(ids: Seq<ViewDefinitionId>) -> Seq<Seq<char>> {
    ids.map_values(|id: ViewDefinitionId| id.name())
}

/// What refuses the first definitions refuses all of them.
proof fn lemma_refusal_stays(catalog: Catalog, compounds: Seq<CompoundModel>, count: int)
    requires
        0 <= count <= compounds.len(),
        compounds_refusal(catalog, compounds.take(count)) is Some,
    ensures
        compounds_refusal(catalog, compounds) == compounds_refusal(catalog, compounds.take(count)),
    decreases compounds.len(),
{
    if count < compounds.len() {
        assert(compounds.drop_last().take(count) =~= compounds.take(count));
        lemma_refusal_stays(catalog, compounds.drop_last(), count);
    } else {
        assert(compounds.take(count) =~= compounds);
    }
}

/// A definition that has been taken up can be taken up again, which changes nothing.
pub proof fn law_registration_is_idempotent(catalog: Catalog, definition: DefinitionModel)
    requires
        register_refusal(catalog, definition) is None,
    ensures
        register_refusal(registered(catalog, definition), definition) is None,
        registered(registered(catalog, definition), definition) == registered(catalog, definition),
        registered(catalog, definition)[definition.id].definition == definition,
{
}

/// A compound definition that has been taken up can be taken up again, which changes nothing.
pub proof fn law_compound_registration_is_idempotent(catalog: Catalog, compound: CompoundModel)
    requires
        compound_refusal(catalog, compound) is None,
    ensures
        compound_refusal(compound_registered(catalog, compound), compound) is None,
        compound_registered(compound_registered(catalog, compound), compound)
            == compound_registered(catalog, compound),
        compound_registered(catalog, compound)[compound.definition.id].compound == Some(compound),
{
}

/// Taking definitions up leaves the known ones as they are.
pub proof fn law_known_definitions_stay(
    catalog: Catalog,
    compounds: Seq<CompoundModel>,
    id: Seq<char>,
)
    requires
        catalog.contains_key(id),
    ensures
        compounds_registered(catalog, compounds).contains_key(id),
        compounds_registered(catalog, compounds)[id] == catalog[id],
    decreases compounds.len(),
{
    if compounds.len() > 0 {
        law_known_definitions_stay(catalog, compounds.drop_last(), id);
    }
}

/// What an owner brought can be taken away again, where nothing else was known of the owner.
pub proof fn law_removing_an_owner_undoes_its_registration(
    catalog: Catalog,
    compound: CompoundModel,
)
    requires
        !catalog.contains_key(compound.definition.id),
        names_of_owner(catalog, compound.owner).is_empty(),
    ensures
        compound_registered(catalog, compound).remove_keys(
            names_of_owner(compound_registered(catalog, compound), compound.owner),
        ) == catalog,
{
    let after = compound_registered(catalog, compound);
    let names = names_of_owner(after, compound.owner);
    assert forall|id: Seq<char>| #[trigger] names.contains(id) <==> id == compound.definition.id by {
        if names.contains(id) && id != compound.definition.id {
            assert(names_of_owner(catalog, compound.owner).contains(id));
        }
    }
    assert(after.remove_keys(names) =~= catalog);
}

} // verus!
