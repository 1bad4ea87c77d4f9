//! Definitions of views that are made of two other views.

use crate::text::same_text;
use crate::view::definition::{
    is_first_repeated, names_of, BindingKey, DefinitionModel, DuplicateBinding, ViewDefinition,
    ViewDefinitionId,
};
use vstd::prelude::*;
use vstd::string::StringExecFns;

verus! {

/// Who a view definition belongs to.
#[derive(Debug, PartialEq, Eq, Hash)]
pub struct ViewDefinitionOwner(String);

impl ViewDefinitionOwner {
    /// The characters of the name.
    pub closed spec fn name(self) -> Seq<char> {
        self.0@
    }

    pub fn new(name: &str) -> (owner: Self)
        ensures
            owner.name() == name@,
    {
        ViewDefinitionOwner(String::from_str(name))
    }

    pub fn as_str(&self) -> (name: &str)
        ensures
            name@ == self.name(),
    {
        self.0.as_str()
    }
}

impl Clone for ViewDefinitionOwner {
    fn clone(&self) -> (copy: Self)
        ensures
            copy.name() == self.name(),
    {
        ViewDefinitionOwner(self.0.clone())
    }
}

/// How the two views stand to each other.
#[derive(Clone, Copy, Debug, PartialEq, Eq, Structural)]
pub enum CompoundViewDirection {
    Horizontal,
    Vertical,
}

/// A role of a child takes its content from a role of the parent.
#[verifier::ext_equal]
pub struct LinkModel {
    pub child: Seq<char>,
    pub parent: Seq<char>,
}

/// A role of a child takes its content from a role of the parent.
#[derive(Debug, PartialEq, Eq)]
pub struct ViewChildBinding {
    child: BindingKey,
    parent: BindingKey,
}

impl ViewChildBinding {
    /// The two roles.
    pub closed spec fn model(self) -> LinkModel {
        LinkModel { child: self.child.name(), parent: self.parent.name() }
    }

    pub fn new(child: &str, parent: &str) -> (binding: Self)
        ensures
            binding.model() == (LinkModel { child: child@, parent: parent@ }),
    {
        ViewChildBinding { child: BindingKey::new(child), parent: BindingKey::new(parent) }
    }

    pub fn child(&self) -> (key: &BindingKey)
        ensures
            key.name() == self.model().child,
    {
        &self.child
    }

    pub fn parent(&self) -> (key: &BindingKey)
        ensures
            key.name() == self.model().parent,
    {
        &self.parent
    }
}

impl Clone for ViewChildBinding {
    fn clone(&self) -> (copy: Self)
        ensures
            copy.model() == self.model(),
    {
        ViewChildBinding { child: self.child.clone(), parent: self.parent.clone() }
    }
}

/// The links, in their order.
pub open spec fn links_of(bindings: Seq<ViewChildBinding>) -> Seq<LinkModel> {
    bindings.map_values(|binding: ViewChildBinding| binding.model())
}

/// A child of a compound view: its name, its definition and its links to the parent.
#[verifier::ext_equal]
pub struct ChildModel {
    pub key: Seq<char>,
    pub definition: Seq<char>,
    pub links: Seq<LinkModel>,
}

/// A child of a compound view.
#[derive(Debug, PartialEq, Eq)]
pub struct ViewChildDefinition {
    key: String,
    definition: ViewDefinitionId,
    bindings: Vec<ViewChildBinding>,
}

impl ViewChildDefinition {
    /// What the child is.
    pub closed spec fn model(self) -> ChildModel {
        ChildModel {
            key: self.key@,
            definition: self.definition.name(),
            links: links_of(self.bindings@),
        }
    }

    pub fn new(key: &str, definition: ViewDefinitionId, bindings: Vec<ViewChildBinding>) -> (child:
        Self)
        ensures
            child.model() == (ChildModel {
                key: key@,
                definition: definition.name(),
                links: links_of(bindings@),
            }),
    {
        ViewChildDefinition { key: String::from_str(key), definition, bindings }
    }

    pub fn key(&self) -> (key: &str)
        ensures
            key@ == self.model().key,
    {
        self.key.as_str()
    }

    pub fn definition(&self) -> (id: &ViewDefinitionId)
        ensures
            id.name() == self.model().definition,
    {
        &self.definition
    }

    pub fn bindings(&self) -> (bindings: &Vec<ViewChildBinding>)
        ensures
            links_of(bindings@) == self.model().links,
    {
        &self.bindings
    }

    /// Whether both are the same child.
    pub fn same(&self, other: &ViewChildDefinition) -> (same: bool)
        ensures
            same == (self.model() == other.model()),
    {
        let ghost left = links_of(self.bindings@);
        let ghost right = links_of(other.bindings@);
        if !same_text(self.key.as_str(), other.key.as_str()) || !same_text(
            self.definition.as_str(),
            other.definition.as_str(),
        ) || self.bindings.len() != other.bindings.len() {
            assert(left.len() == self.bindings@.len());
            assert(right.len() == other.bindings@.len());
            return false;
        }
        let mut i: usize = 0;
        while i < self.bindings.len()
            invariant
                i <= self.bindings.len(),
                self.bindings.len() == other.bindings.len(),
                left == links_of(self.bindings@),
                right == links_of(other.bindings@),
                forall|j: int| 0 <= j < i ==> left[j] == right[j],
            decreases self.bindings.len() - i,
        {
            let a = &self.bindings[i];
            let b = &other.bindings[i];
            assert(left[i as int] == a.model());
            assert(right[i as int] == b.model());
            if !same_text(a.child.as_str(), b.child.as_str()) || !same_text(
                a.parent.as_str(),
                b.parent.as_str(),
            ) {
                return false;
            }
            i = i + 1;
        }
        assert(left =~= right);
        true
    }
}

impl Clone for ViewChildDefinition {
    fn clone(&self) -> (copy: Self)
        ensures
            copy.model() == self.model(),
    {
        let ghost links = links_of(self.bindings@);
        let mut bindings: Vec<ViewChildBinding> = Vec::new();
        let mut i: usize = 0;
        while i < self.bindings.len()
            invariant
                i <= self.bindings.len(),
                links == links_of(self.bindings@),
                links_of(bindings@) =~= links.take(i as int),
            decreases self.bindings.len() - i,
        {
            let ghost before = bindings@;
            let binding = self.bindings[i].clone();
            bindings.push(binding);
            assert(links[i as int] == binding.model());
            assert(links_of(bindings@) =~= links_of(before).push(binding.model()));
            assert(links.take(i + 1) =~= links.take(i as int).push(binding.model()));
            i = i + 1;
        }
        assert(links.take(i as int) =~= links);
        ViewChildDefinition {
            key: self.key.clone(),
            definition: self.definition.clone(),
            bindings,
        }
    }
}

/// A compound view: its own definition, who it belongs to and its two children.
#[verifier::ext_equal]
pub struct CompoundModel {
    pub definition: DefinitionModel,
    pub owner: Seq<char>,
    pub direction: CompoundViewDirection,
    pub first: ChildModel,
    pub second: ChildModel,
}

/// A definition of views that are made of two other views.
#[derive(Debug, PartialEq, Eq)]
pub struct CompoundViewDefinition {
    definition: ViewDefinition,
    owner: ViewDefinitionOwner,
    direction: CompoundViewDirection,
    first: ViewChildDefinition,
    second: ViewChildDefinition,
}

/// Where the links, from index `i` on, first take a content from that role of the parent.
pub open spec fn link_index(links: Seq<LinkModel>, parent: Seq<char>, i: int) -> Option<int>
    decreases links.len() - i,
{
    if i >= links.len() {
        None
    } else if links[i].parent == parent {
        Some(i)
    } else {
        link_index(links, parent, i + 1)
    }
}

/// The child, and its role, that takes its content from that role of the parent.
pub open spec fn linked_child(compound: CompoundModel, parent: Seq<char>) -> Option<
    (int, Seq<char>),
> {
    match link_index(compound.first.links, parent, 0) {
        Some(i) => Some((0, compound.first.links[i].child)),
        None => match link_index(compound.second.links, parent, 0) {
            Some(i) => Some((1, compound.second.links[i].child)),
            None => None,
        },
    }
}

/// Where the links first take a content from that role of the parent.
fn find_link(bindings: &Vec<ViewChildBinding>, parent: &BindingKey) -> (index: Option<usize>)
    ensures
        match index {
            Some(i) => link_index(links_of(bindings@), parent.name(), 0) == Some(i as int) && i
                < bindings@.len(),
            None => link_index(links_of(bindings@), parent.name(), 0) is None,
        },
{
    let ghost links = links_of(bindings@);
    let mut i: usize = 0;
    while i < bindings.len()
        invariant
            i <= bindings.len(),
            links == links_of(bindings@),
            link_index(links, parent.name(), 0) == link_index(links, parent.name(), i as int),
        decreases bindings.len() - i,
    {
        assert(links[i as int] == bindings@[i as int].model());
        if same_text(bindings[i].parent.as_str(), parent.as_str()) {
            return Some(i);
        }
        i = i + 1;
    }
    None
}

impl CompoundViewDefinition {
    /// What the definition is.
    pub closed spec fn model(self) -> CompoundModel {
        CompoundModel {
            definition: self.definition.model(),
            owner: self.owner.name(),
            direction: self.direction,
            first: self.first.model(),
            second: self.second.model(),
        }
    }

    /// A definition that declares these roles, where no two have the same name.
    pub fn new(
        id: ViewDefinitionId,
        owner: ViewDefinitionOwner,
        bindings: Vec<BindingKey>,
        direction: CompoundViewDirection,
        children: [ViewChildDefinition; 2],
    ) -> (result: Result<Self, DuplicateBinding>)
        ensures
            match result {
                Ok(compound) => {
                    &&& names_of(bindings@).no_duplicates()
                    &&& compound.model() == (CompoundModel {
                        definition: DefinitionModel {
                            id: id.name(),
                            bindings: names_of(bindings@),
                        },
                        owner: owner.name(),
                        direction,
                        first: children@[0].model(),
                        second: children@[1].model(),
                    })
                },
                Err(duplicate) => is_first_repeated(names_of(bindings@), duplicate.0.name()),
            },
    {
        match ViewDefinition::new(id, bindings) {
            Ok(definition) => {
                let first = children[0].clone();
                let second = children[1].clone();
                Ok(CompoundViewDefinition { definition, owner, direction, first, second })
            },
            Err(duplicate) => Err(duplicate),
        }
    }

    pub fn definition(&self) -> (definition: &ViewDefinition)
        ensures
            definition.model() == self.model().definition,
    {
        &self.definition
    }

    pub fn owner(&self) -> (owner: &ViewDefinitionOwner)
        ensures
            owner.name() == self.model().owner,
    {
        &self.owner
    }

    pub fn direction(&self) -> (direction: CompoundViewDirection)
        ensures
            direction == self.model().direction,
    {
        self.direction
    }

    /// The first child.
    pub fn first(&self) -> (child: &ViewChildDefinition)
        ensures
            child.model() == self.model().first,
    {
        &self.first
    }

    /// The second child.
    pub fn second(&self) -> (child: &ViewChildDefinition)
        ensures
            child.model() == self.model().second,
    {
        &self.second
    }

    /// The child, and its role, that takes its content from that role of the parent.
    pub fn child_binding_for_parent(&self, binding: &BindingKey) -> (link: Option<
        (usize, &BindingKey),
    >)
        ensures
            match link {
                Some((index, child)) => linked_child(self.model(), binding.name()) == Some(
                    (index as int, child.name()),
                ),
                None => linked_child(self.model(), binding.name()) is None,
            },
    {
        if let Some(i) = find_link(&self.first.bindings, binding) {
            assert(self.first.model().links[i as int] == self.first.bindings@[i as int].model());
            return Some((0, &self.first.bindings[i].child));
        }
        match find_link(&self.second.bindings, binding) {
            Some(i) => {
                assert(self.second.model().links[i as int]
                    == self.second.bindings@[i as int].model());
                Some((1, &self.second.bindings[i].child))
            },
            None => None,
        }
    }

    /// Whether both definitions are the same.
    pub fn same(&self, other: &CompoundViewDefinition) -> (same: bool)
        ensures
            same == (self.model() == other.model()),
    {
        self.definition.same(&other.definition) && same_text(
            self.owner.as_str(),
            other.owner.as_str(),
        ) && self.direction == other.direction && self.first.same(&other.first)
            && self.second.same(&other.second)
    }
}

impl Clone for CompoundViewDefinition {
    fn clone(&self) -> (copy: Self)
        ensures
            copy.model() == self.model(),
    {
        CompoundViewDefinition {
            definition: self.definition.clone(),
            owner: self.owner.clone(),
            direction: self.direction,
            first: self.first.clone(),
            second: self.second.clone(),
        }
    }
}

} // verus!
