//! What a view definition declares: its identity and the roles that contents are bound to.

use crate::text::same_text;
use vstd::prelude::*;
use vstd::string::StringExecFns;

verus! {

/// The role of the content that a view edits.
pub const DOCUMENT_BINDING: &'static str = "document";

/// The role of the first content of a diff view.
pub const LEFT_BINDING: &'static str = "left";

/// The role of the second content of a diff view.
pub const RIGHT_BINDING: &'static str = "right";

/// The definition of views that edit one content.
pub const BUFFER_VIEW_DEFINITION: &'static str = "core.buffer";

/// The definition of views that compare two contents.
pub const DIFF_VIEW_DEFINITION: &'static str = "core.diff";

/// The name of a role that a content can be bound to.
#[derive(Debug, PartialEq, Eq, Hash, PartialOrd, Ord)]
pub struct BindingKey(String);

impl BindingKey {
    /// The characters of the name.
    pub closed spec fn name(self) -> Seq<char> {
        self.0@
    }

    pub fn new(name: &str) -> (key: Self)
        ensures
            key.name() == name@,
    {
        BindingKey(String::from_str(name))
    }

    pub fn as_str(&self) -> (name: &str)
        ensures
            name@ == self.name(),
    {
        self.0.as_str()
    }
}

impl Clone for BindingKey {
    fn clone(&self) -> (copy: Self)
        ensures
            copy.name() == self.name(),
    {
        BindingKey(self.0.clone())
    }
}

/// The name of a view definition.
#[derive(Debug, PartialEq, Eq, Hash, PartialOrd, Ord)]
pub struct ViewDefinitionId(String);

impl ViewDefinitionId {
    /// The characters of the name.
    pub closed spec fn name(self) -> Seq<char> {
        self.0@
    }

    pub fn new(name: &str) -> (id: Self)
        ensures
            id.name() == name@,
    {
        ViewDefinitionId(String::from_str(name))
    }

    pub fn as_str(&self) -> (name: &str)
        ensures
            name@ == self.name(),
    {
        self.0.as_str()
    }
}

impl Clone for ViewDefinitionId {
    fn clone(&self) -> (copy: Self)
        ensures
            copy.name() == self.name(),
    {
        ViewDefinitionId(self.0.clone())
    }
}

/// The names of keys, in their order.
pub open spec fn names_of(keys: Seq<BindingKey>) -> Seq<Seq<char>> {
    keys.map_values(|key: BindingKey| key.name())
}

/// The name is the first that stands among the names a second time.
pub open spec fn is_first_repeated(names: Seq<Seq<char>>, name: Seq<char>) -> bool {
    exists|i: int, j: int|
        0 <= i < j < names.len() && #[trigger] names[i] == #[trigger] names[j] && names[i] == name
            && names.take(j).no_duplicates()
}

/// A view definition: its name and the names of its roles, in their order.
#[verifier::ext_equal]
pub struct DefinitionModel {
    pub id: Seq<char>,
    pub bindings: Seq<Seq<char>>,
}

/// The same role is declared twice.
#[derive(Debug, PartialEq, Eq)]
pub struct DuplicateBinding(pub BindingKey);

/// A view definition: a name and the roles that every instance binds a content to.
#[derive(Debug, PartialEq, Eq)]
pub struct ViewDefinition {
    id: ViewDefinitionId,
    bindings: Vec<BindingKey>,
}

impl ViewDefinition {
    /// What the definition declares.
    pub closed spec fn model(self) -> DefinitionModel {
        DefinitionModel { id: self.id.name(), bindings: names_of(self.bindings@) }
    }

    #[verifier::type_invariant]
    spec fn roles_differ(self) -> bool {
        names_of(self.bindings@).no_duplicates()
    }

    /// A definition that declares these roles, where no two have the same name.
    pub fn new(id: ViewDefinitionId, bindings: Vec<BindingKey>) -> (result: Result<
        Self,
        DuplicateBinding,
    >)
        ensures
            match result {
                Ok(definition) => {
                    &&& names_of(bindings@).no_duplicates()
                    &&& definition.model() == (DefinitionModel {
                        id: id.name(),
                        bindings: names_of(bindings@),
                    })
                },
                Err(duplicate) => is_first_repeated(names_of(bindings@), duplicate.0.name()),
            },
    {
        let ghost names = names_of(bindings@);
        let mut j: usize = 0;
        while j < bindings.len()
            invariant
                j <= bindings.len(),
                names == names_of(bindings@),
                forall|a: int, b: int| 0 <= a < b < j ==> names[a] != names[b],
            decreases bindings.len() - j,
        {
            let mut i: usize = 0;
            while i < j
                invariant
                    i <= j,
                    j < bindings.len(),
                    names == names_of(bindings@),
                    forall|a: int, b: int| 0 <= a < b < j ==> names[a] != names[b],
                    forall|a: int| 0 <= a < i ==> names[a] != names[j as int],
                decreases j - i,
            {
                assert(names[i as int] == bindings@[i as int].name());
                assert(names[j as int] == bindings@[j as int].name());
                if same_text(bindings[i].as_str(), bindings[j].as_str()) {
                    assert(names.take(j as int).no_duplicates());
                    return Err(DuplicateBinding(bindings[j].clone()));
                }
                i = i + 1;
            }
            j = j + 1;
        }
        Ok(ViewDefinition { id, bindings })
    }

    /// The definition of views that edit one content.
    pub fn buffer() -> (definition: Self)
        ensures
            definition.model() == (DefinitionModel {
                id: BUFFER_VIEW_DEFINITION@,
                bindings: seq![DOCUMENT_BINDING@],
            }),
    {
        let mut bindings: Vec<BindingKey> = Vec::new();
        bindings.push(BindingKey::new(DOCUMENT_BINDING));
        assert(names_of(bindings@) =~= seq![DOCUMENT_BINDING@]);
        ViewDefinition { id: ViewDefinitionId::new(BUFFER_VIEW_DEFINITION), bindings }
    }

    pub fn id(&self) -> (id: &ViewDefinitionId)
        ensures
            id.name() == self.model().id,
    {
        &self.id
    }

    /// The declared roles, in their order.
    pub fn bindings(&self) -> (bindings: &Vec<BindingKey>)
        ensures
            names_of(bindings@) == self.model().bindings,
            names_of(bindings@).no_duplicates(),
    {
        proof {
            use_type_invariant(self);
        }
        &self.bindings
    }

    /// Whether the role is declared.
    pub fn declares(&self, key: &str) -> (declares: bool)
        ensures
            declares == self.model().bindings.contains(key@),
    {
        let ghost names = names_of(self.bindings@);
        let mut i: usize = 0;
        while i < self.bindings.len()
            invariant
                i <= self.bindings.len(),
                names == names_of(self.bindings@),
                forall|j: int| 0 <= j < i ==> names[j] != key@,
            decreases self.bindings.len() - i,
        {
            assert(names[i as int] == self.bindings@[i as int].name());
            if same_text(self.bindings[i].as_str(), key) {
                return true;
            }
            i = i + 1;
        }
        false
    }

    /// Whether both definitions declare the same.
    pub fn same(&self, other: &ViewDefinition) -> (same: bool)
        ensures
            same == (self.model() == other.model()),
    {
        let ghost left = names_of(self.bindings@);
        let ghost right = names_of(other.bindings@);
        if !same_text(self.id.as_str(), other.id.as_str()) || self.bindings.len()
            != other.bindings.len() {
            assert(left.len() == self.bindings@.len());
            assert(right.len() == other.bindings@.len());
            return false;
        }
        let mut i: usize = 0;
        while i < self.bindings.len()
            invariant
                i <= self.bindings.len(),
                self.bindings.len() == other.bindings.len(),
                left == names_of(self.bindings@),
                right == names_of(other.bindings@),
                forall|j: int| 0 <= j < i ==> left[j] == right[j],
            decreases self.bindings.len() - i,
        {
            assert(left[i as int] == self.bindings@[i as int].name());
            assert(right[i as int] == other.bindings@[i as int].name());
            if !same_text(self.bindings[i].as_str(), other.bindings[i].as_str()) {
                return false;
            }
            i = i + 1;
        }
        assert(left =~= right);
        true
    }
}

impl Clone for ViewDefinition {
    fn clone(&self) -> (copy: Self)
        ensures
            copy.model() == self.model(),
    {
        proof {
            use_type_invariant(self);
        }
        let ghost names = names_of(self.bindings@);
        let mut bindings: Vec<BindingKey> = Vec::new();
        let mut i: usize = 0;
        while i < self.bindings.len()
            invariant
                i <= self.bindings.len(),
                names == names_of(self.bindings@),
                names_of(bindings@) =~= names.take(i as int),
            decreases self.bindings.len() - i,
        {
            let ghost before = bindings@;
            let key = self.bindings[i].clone();
            bindings.push(key);
            assert(names[i as int] == key.name());
            assert(names_of(bindings@) =~= names_of(before).push(key.name()));
            assert(names.take(i + 1) =~= names.take(i as int).push(key.name()));
            i = i + 1;
        }
        assert(names.take(i as int) =~= names);
        ViewDefinition { id: self.id.clone(), bindings }
    }
}

} // verus!
