//! Which contents the roles of a view are bound to.

use crate::protocol::ContentId;
use crate::text::{
    compare_text, flipped, lemma_lex_composes, lemma_lex_flip, lemma_lex_reflexive, lemma_lex_same,
    lemma_text_key_injective, text_key, text_order, Order,
};
use crate::view::definition::{names_of, BindingKey, DefinitionModel, ViewDefinition};
use vstd::prelude::*;

verus! {

/// Why contents cannot be bound.
#[derive(Debug, PartialEq, Eq)]
pub enum ContentBindingError {
    /// A role is bound twice.
    Duplicate(BindingKey),
    /// A role is bound that the definition does not declare.
    Unknown(BindingKey),
    /// A role is not bound that the definition declares.
    Missing(BindingKey),
    /// The state of the document is there without a document, or the other way round.
    DocumentStateMismatch,
}

impl Clone for ContentBindingError {
    fn clone(&self) -> (copy: Self)
        ensures
            copy.model() == self.model(),
    {
        match self {
            ContentBindingError::Duplicate(key) => ContentBindingError::Duplicate(key.clone()),
            ContentBindingError::Unknown(key) => ContentBindingError::Unknown(key.clone()),
            ContentBindingError::Missing(key) => ContentBindingError::Missing(key.clone()),
            ContentBindingError::DocumentStateMismatch => {
                ContentBindingError::DocumentStateMismatch
            },
        }
    }
}

/// Why contents cannot be bound, with the name of the role.
pub enum BindingFault {
    Duplicate(Seq<char>),
    Unknown(Seq<char>),
    Missing(Seq<char>),
    DocumentStateMismatch,
}

impl ContentBindingError {
    /// The reason with the name of the role.
    pub open spec fn model(self) -> BindingFault {
        match self {
            ContentBindingError::Duplicate(key) => BindingFault::Duplicate(key.name()),
            ContentBindingError::Unknown(key) => BindingFault::Unknown(key.name()),
            ContentBindingError::Missing(key) => BindingFault::Missing(key.name()),
            ContentBindingError::DocumentStateMismatch => BindingFault::DocumentStateMismatch,
        }
    }
}

/// A role and the content that it is bound to.
pub struct Bound {
    pub role: Seq<char>,
    pub content: ContentId,
}

/// The roles come in the order of their names, each once.
pub open spec fn in_name_order(bindings: Seq<Bound>) -> bool {
    forall|i: int, j: int|
        0 <= i < j < bindings.len() ==> text_order(
            (#[trigger] bindings[i]).role,
            (#[trigger] bindings[j]).role,
        ) is Less
}

/// The role stands at index `i`.
pub open spec fn binds_at(bindings: Seq<Bound>, role: Seq<char>, i: int) -> bool {
    0 <= i < bindings.len() && bindings[i].role == role
}

/// The content that a role is bound to.
pub open spec fn content_of(bindings: Seq<Bound>, role: Seq<char>) -> Option<ContentId> {
    if exists|i: int| binds_at(bindings, role, i) {
        Some(bindings[choose|i: int| binds_at(bindings, role, i)].content)
    } else {
        None
    }
}

/// Some role is bound to the content.
pub open spec fn refers_to(bindings: Seq<Bound>, content: ContentId) -> bool {
    exists|i: int| 0 <= i < bindings.len() && (#[trigger] bindings[i]).content == content
}

/// A pair of a key and a content as a bound role.
pub open spec fn bound(pair: (BindingKey, ContentId)) -> Bound {
    Bound { role: pair.0.name(), content: pair.1 }
}

/// Pairs as bound roles.
pub open spec fn bounds_of(pairs: Seq<(BindingKey, ContentId)>) -> Seq<Bound> {
    pairs.map_values(|pair: (BindingKey, ContentId)| bound(pair))
}

/// The first fault among the pairs from index `i` on: a role that is not declared, or one that
/// stands before.
pub open spec fn pair_fault(definition: DefinitionModel, given: Seq<Bound>, i: int) -> Option<
    BindingFault,
>
    decreases given.len() - i,
{
    if i >= given.len() {
        None
    } else if !definition.bindings.contains(given[i].role) {
        Some(BindingFault::Unknown(given[i].role))
    } else if exists|j: int| 0 <= j < i && (#[trigger] given[j]).role == given[i].role {
        Some(BindingFault::Duplicate(given[i].role))
    } else {
        pair_fault(definition, given, i + 1)
    }
}

/// The first declared role from index `i` on that no pair binds.
pub open spec fn missing_role(definition: DefinitionModel, given: Seq<Bound>, i: int) -> Option<
    Seq<char>,
>
    decreases definition.bindings.len() - i,
{
    if i >= definition.bindings.len() {
        None
    } else if !exists|j: int|
        0 <= j < given.len() && (#[trigger] given[j]).role == definition.bindings[i] {
        Some(definition.bindings[i])
    } else {
        missing_role(definition, given, i + 1)
    }
}

/// Why the pairs do not bind the roles of the definition.
pub open spec fn binding_fault(definition: DefinitionModel, given: Seq<Bound>) -> Option<
    BindingFault,
> {
    match pair_fault(definition, given, 0) {
        Some(fault) => Some(fault),
        None => match missing_role(definition, given, 0) {
            Some(role) => Some(BindingFault::Missing(role)),
            None => None,
        },
    }
}

/// `bindings` holds exactly the given pairs, in the order of the names.
pub open spec fn sorts(bindings: Seq<Bound>, given: Seq<Bound>) -> bool {
    &&& in_name_order(bindings)
    &&& bindings.len() == given.len()
    &&& forall|i: int|
        0 <= i < given.len() ==> content_of(bindings, (#[trigger] given[i]).role) == Some(
            given[i].content,
        )
    &&& forall|role: Seq<char>|
        (#[trigger] content_of(bindings, role)) is Some ==> exists|i: int|
            0 <= i < given.len() && (#[trigger] given[i]).role == role
}

/// Where there is no fault, exactly the declared roles are bound.
pub proof fn law_declared_roles_are_bound(
    definition: DefinitionModel,
    given: Seq<Bound>,
    bindings: Seq<Bound>,
    role: Seq<char>,
)
    requires
        binding_fault(definition, given) is None,
        sorts(bindings, given),
    ensures
        content_of(bindings, role) is Some <==> definition.bindings.contains(role),
{
    if content_of(bindings, role) is Some {
        let i = choose|i: int| 0 <= i < given.len() && (#[trigger] given[i]).role == role;
        lemma_no_pair_fault(definition, given, 0, i);
    }
    if definition.bindings.contains(role) {
        let k = choose|k: int| 0 <= k < definition.bindings.len() && definition.bindings[k] == role;
        lemma_no_missing_role(definition, given, 0, k);
        let i = choose|i: int| 0 <= i < given.len() && (#[trigger] given[i]).role == role;
        assert(content_of(bindings, given[i].role) is Some);
    }
}

proof fn lemma_no_pair_fault(definition: DefinitionModel, given: Seq<Bound>, i: int, k: int)
    requires
        0 <= i <= k < given.len(),
        pair_fault(definition, given, i) is None,
    ensures
        definition.bindings.contains(given[k].role),
    decreases given.len() - i,
{
    if i < k {
        lemma_no_pair_fault(definition, given, i + 1, k);
    }
}

proof fn lemma_no_missing_role(definition: DefinitionModel, given: Seq<Bound>, i: int, k: int)
    requires
        0 <= i <= k < definition.bindings.len(),
        missing_role(definition, given, i) is None,
    ensures
        exists|j: int|
            0 <= j < given.len() && (#[trigger] given[j]).role == definition.bindings[k],
    decreases definition.bindings.len() - i,
{
    if i < k {
        lemma_no_missing_role(definition, given, i + 1, k);
    }
}

/// The same roles, one of them bound to another content.
pub open spec fn rebound(bindings: Seq<Bound>, role: Seq<char>, content: ContentId) -> Seq<Bound> {
    bindings.map_values(
        |bound: Bound|
            if bound.role == role {
                Bound { role, content }
            } else {
                bound
            },
    )
}

/// Binding a role to another content leaves every other role as it is.
pub proof fn law_rebinding_changes_one_role(
    bindings: Seq<Bound>,
    role: Seq<char>,
    content: ContentId,
    other: Seq<char>,
)
    requires
        in_name_order(bindings),
    ensures
        in_name_order(rebound(bindings, role, content)),
        content_of(rebound(bindings, role, content), other) == if other == role && content_of(
            bindings,
            role,
        ) is Some {
            Some(content)
        } else {
            content_of(bindings, other)
        },
{
    let after = rebound(bindings, role, content);
    assert forall|a: int, b: int| 0 <= a < b < after.len() implies text_order(
        (#[trigger] after[a]).role,
        (#[trigger] after[b]).role,
    ) is Less by {
        assert(text_order(bindings[a].role, bindings[b].role) is Less);
    }
    if exists|i: int| binds_at(bindings, other, i) {
        let i = choose|i: int| binds_at(bindings, other, i);
        lemma_content_at(bindings, i);
        lemma_content_at(after, i);
    } else if exists|i: int| binds_at(after, other, i) {
        let i = choose|i: int| binds_at(after, other, i);
        assert(binds_at(bindings, other, i));
    }
}

/// A role that comes before another one is not that one.
proof fn lemma_order_tells_apart(left: Seq<char>, right: Seq<char>)
    ensures
        text_order(left, right) is Same <==> left == right,
        text_order(right, left) == flipped(text_order(left, right)),
{
    lemma_lex_reflexive(text_key(left), 0);
    lemma_lex_flip(text_key(left), text_key(right), 0);
    if text_order(left, right) is Same {
        assert(text_key(left).take(0) =~= text_key(right).take(0));
        lemma_lex_same(text_key(left), text_key(right), 0);
        lemma_text_key_injective(left, right);
    }
}

/// In name order every role is found where it stands.
pub proof fn lemma_content_at(bindings: Seq<Bound>, i: int)
    requires
        in_name_order(bindings),
        0 <= i < bindings.len(),
    ensures
        content_of(bindings, bindings[i].role) == Some(bindings[i].content),
{
    let role = bindings[i].role;
    assert(binds_at(bindings, role, i));
    let found = choose|j: int| binds_at(bindings, role, j);
    lemma_order_tells_apart(role, role);
    assert(found == i);
}

/// Putting a new role in its place keeps the order and everything that was bound.
proof fn lemma_insert_bound(bindings: Seq<Bound>, new: Bound, at: int)
    requires
        in_name_order(bindings),
        0 <= at <= bindings.len(),
        forall|i: int| 0 <= i < at ==> text_order((#[trigger] bindings[i]).role, new.role) is Less,
        at < bindings.len() ==> text_order(bindings[at].role, new.role) is More,
    ensures
        in_name_order(bindings.insert(at, new)),
        content_of(bindings.insert(at, new), new.role) == Some(new.content),
        forall|role: Seq<char>|
            role != new.role ==> #[trigger] content_of(bindings.insert(at, new), role)
                == content_of(bindings, role),
{
    let after = bindings.insert(at, new);
    assert forall|i: int, j: int| 0 <= i < j < after.len() implies text_order(
        (#[trigger] after[i]).role,
        (#[trigger] after[j]).role,
    ) is Less by {
        if i == at {
            lemma_order_tells_apart(bindings[at].role, new.role);
            if j - 1 > at {
                lemma_lex_composes(
                    text_key(new.role),
                    text_key(bindings[at].role),
                    text_key(bindings[j - 1].role),
                    0,
                );
            }
        }
    }
    lemma_content_at(after, at);
    assert forall|role: Seq<char>| role != new.role implies #[trigger] content_of(after, role)
        == content_of(bindings, role) by {
        if exists|i: int| binds_at(bindings, role, i) {
            let i = choose|i: int| binds_at(bindings, role, i);
            lemma_content_at(bindings, i);
            let k = if i < at {
                i
            } else {
                i + 1
            };
            assert(after[k] == bindings[i]);
            lemma_content_at(after, k);
        } else if exists|i: int| binds_at(after, role, i) {
            let i = choose|i: int| binds_at(after, role, i);
            let k = if i < at {
                i
            } else {
                i - 1
            };
            assert(binds_at(bindings, role, k));
        }
    }
}

/// The contents that the roles of a view are bound to.
#[derive(Debug, Default, PartialEq, Eq)]
pub struct ContentBindings {
    entries: Vec<(BindingKey, ContentId)>,
}

impl ContentBindings {
    /// The bound roles, in the order of their names.
    pub closed spec fn model(self) -> Seq<Bound> {
        bounds_of(self.entries@)
    }

    #[verifier::type_invariant]
    spec fn ordered(self) -> bool {
        in_name_order(bounds_of(self.entries@))
    }

    /// Binds every role of the definition to a content.
    pub fn new(definition: &ViewDefinition, bindings: Vec<(BindingKey, ContentId)>) -> (result:
        Result<Self, ContentBindingError>)
        ensures
            match result {
                Ok(bound) => binding_fault(definition.model(), bounds_of(bindings@)) is None
                    && sorts(bound.model(), bounds_of(bindings@)),
                Err(error) => binding_fault(definition.model(), bounds_of(bindings@)) == Some(
                    error.model(),
                ),
            },
    {
        let ghost model = definition.model();
        let ghost given = bounds_of(bindings@);
        let mut entries: Vec<(BindingKey, ContentId)> = Vec::new();
        let mut i: usize = 0;
        assert(bounds_of(entries@) =~= Seq::empty());
        while i < bindings.len()
            invariant
                i <= bindings.len(),
                model == definition.model(),
                given == bounds_of(bindings@),
                sorts(bounds_of(entries@), given.take(i as int)),
                pair_fault(model, given, 0) == pair_fault(model, given, i as int),
            decreases bindings.len() - i,
        {
            let key = &bindings[i].0;
            let content = bindings[i].1;
            assert(given[i as int] == (Bound { role: key.name(), content }));
            if !definition.declares(key.as_str()) {
                return Err(ContentBindingError::Unknown(key.clone()));
            }
            let ghost before = bounds_of(entries@);
            let ghost new = Bound { role: key.name(), content };
            let (at, there) = place_of(&entries, key.as_str());
            if there {
                proof {
                    lemma_content_at(before, at as int);
                }
                return Err(ContentBindingError::Duplicate(key.clone()));
            }
            let entry = (key.clone(), content);
            entries.insert(at, entry);
            proof {
                assert(bounds_of(entries@) =~= before.insert(at as int, new));
                lemma_insert_bound(before, new, at as int);
                assert forall|j: int| 0 <= j < i implies (#[trigger] given[j]).role != new.role by {
                    assert(given.take(i as int)[j] == given[j]);
                    if given[j].role == new.role {
                        assert(content_of(before, new.role) is Some);
                        let k = choose|k: int| binds_at(before, new.role, k);
                        if k < at {
                            lemma_order_tells_apart(before[k].role, new.role);
                        } else {
                            lemma_order_tells_apart(before[at as int].role, new.role);
                            lemma_lex_composes(
                                text_key(new.role),
                                text_key(before[at as int].role),
                                text_key(before[k].role),
                                0,
                            );
                            lemma_order_tells_apart(new.role, new.role);
                        }
                    }
                }
                let taken = given.take(i + 1);
                assert forall|j: int| 0 <= j < taken.len() implies content_of(
                    bounds_of(entries@),
                    (#[trigger] taken[j]).role,
                ) == Some(taken[j].content) by {
                    if j < i {
                        assert(given.take(i as int)[j] == given[j]);
                    }
                }
                assert forall|role: Seq<char>|
                    (#[trigger] content_of(bounds_of(entries@), role)) is Some implies exists|
                    j: int,
                |
                    0 <= j < taken.len() && (#[trigger] taken[j]).role == role by {
                    if role == new.role {
                        assert(taken[i as int].role == role);
                    } else {
                        assert(content_of(before, role) is Some);
                        let earlier = given.take(i as int);
                        let j = choose|j: int|
                            0 <= j < earlier.len() && (#[trigger] earlier[j]).role == role;
                        assert(taken[j].role == role);
                    }
                }
            }
            i = i + 1;
        }
        assert(given.take(given.len() as int) =~= given);
        let ghost held = bounds_of(entries@);
        let declared = definition.bindings();
        let mut k: usize = 0;
        while k < declared.len()
            invariant
                k <= declared.len(),
                names_of(declared@) == model.bindings,
                model == definition.model(),
                given == bounds_of(bindings@),
                pair_fault(model, given, 0) is None,
                held == bounds_of(entries@),
                sorts(held, given),
                missing_role(model, given, 0) == missing_role(model, given, k as int),
            decreases declared.len() - k,
        {
            let key = &declared[k];
            assert(model.bindings[k as int] == key.name());
            let (at, there) = place_of(&entries, key.as_str());
            if !there {
                proof {
                    assert forall|j: int| 0 <= j < given.len() implies (#[trigger] given[j]).role
                        != key.name() by {
                        if given[j].role == key.name() {
                            assert(content_of(held, key.name()) is Some);
                            lemma_absent(held, key.name(), at as int);
                        }
                    }
                }
                return Err(ContentBindingError::Missing(key.clone()));
            }
            proof {
                lemma_content_at(held, at as int);
                assert(content_of(held, key.name()) is Some);
            }
            k = k + 1;
        }
        Ok(ContentBindings { entries })
    }

    /// The content that a role is bound to.
    pub fn get(&self, key: &str) -> (content: Option<ContentId>)
        ensures
            content == content_of(self.model(), key@),
    {
        proof {
            use_type_invariant(self);
        }
        let (at, there) = place_of(&self.entries, key);
        if there {
            proof {
                lemma_content_at(self.model(), at as int);
            }
            Some(self.entries[at].1)
        } else {
            proof {
                lemma_absent(self.model(), key@, at as int);
            }
            None
        }
    }

    /// The bound roles, in the order of their names.
    pub fn iter(&self) -> (pairs: Vec<(&BindingKey, ContentId)>)
        ensures
            pairs@.len() == self.model().len(),
            forall|i: int|
                0 <= i < pairs@.len() ==> (#[trigger] pairs@[i]).0.name() == self.model()[i].role
                    && pairs@[i].1 == self.model()[i].content,
            in_name_order(self.model()),
    {
        proof {
            use_type_invariant(self);
        }
        let mut pairs: Vec<(&BindingKey, ContentId)> = Vec::new();
        let mut i: usize = 0;
        while i < self.entries.len()
            invariant
                i <= self.entries.len(),
                pairs@.len() == i,
                forall|j: int|
                    0 <= j < i ==> (#[trigger] pairs@[j]).0.name() == self.model()[j].role
                        && pairs@[j].1 == self.model()[j].content,
            decreases self.entries.len() - i,
        {
            assert(self.model()[i as int] == bound(self.entries@[i as int]));
            pairs.push((&self.entries[i].0, self.entries[i].1));
            i = i + 1;
        }
        pairs
    }

    /// Whether some role is bound to the content.
    pub fn references(&self, content: ContentId) -> (refers: bool)
        ensures
            refers == refers_to(self.model(), content),
    {
        let mut i: usize = 0;
        while i < self.entries.len()
            invariant
                i <= self.entries.len(),
                forall|j: int| 0 <= j < i ==> (#[trigger] self.model()[j]).content != content,
            decreases self.entries.len() - i,
        {
            assert(self.model()[i as int].content == self.entries@[i as int].1);
            if self.entries[i].1 == content {
                return true;
            }
            i = i + 1;
        }
        false
    }

    /// Binds a role to another content and hands back the one before.
    pub(crate) fn rebind(&mut self, key: &BindingKey, content: ContentId) -> (result: Result<
        ContentId,
        ContentBindingError,
    >)
        ensures
            match result {
                Ok(previous) => {
                    &&& content_of(old(self).model(), key.name()) == Some(previous)
                    &&& final(self).model() == rebound(old(self).model(), key.name(), content)
                },
                Err(error) => {
                    &&& content_of(old(self).model(), key.name()) is None
                    &&& error.model() == BindingFault::Unknown(key.name())
                    &&& *final(self) == *old(self)
                },
            },
    {
        proof {
            use_type_invariant(&*self);
        }
        let ghost before = self.model();
        let (at, there) = place_of(&self.entries, key.as_str());
        if !there {
            proof {
                lemma_absent(before, key.name(), at as int);
            }
            return Err(ContentBindingError::Unknown(key.clone()));
        }
        let previous = self.entries[at].1;
        let mut entries: Vec<(BindingKey, ContentId)> = Vec::new();
        let mut i: usize = 0;
        let ghost after = rebound(before, key.name(), content);
        while i < self.entries.len()
            invariant
                i <= self.entries.len(),
                at < self.entries.len(),
                before == bounds_of(self.entries@),
                in_name_order(before),
                before[at as int].role == key.name(),
                after == rebound(before, key.name(), content),
                bounds_of(entries@) =~= after.take(i as int),
            decreases self.entries.len() - i,
        {
            let held = &self.entries[i];
            assert(before[i as int] == bound(*held));
            let entry = (
                held.0.clone(),
                if i == at {
                    content
                } else {
                    held.1
                },
            );
            proof {
                lemma_content_at(before, at as int);
                lemma_content_at(before, i as int);
                lemma_order_tells_apart(key.name(), key.name());
                assert((i == at) == (before[i as int].role == key.name()));
                assert(after[i as int] == bound(entry));
                assert(after.take(i + 1) =~= after.take(i as int).push(bound(entry)));
            }
            let ghost seen = entries@;
            entries.push(entry);
            assert(bounds_of(entries@) =~= bounds_of(seen).push(bound(entry)));
            i = i + 1;
        }
        proof {
            assert(after.take(i as int) =~= after);
            lemma_content_at(before, at as int);
            assert forall|a: int, b: int| 0 <= a < b < after.len() implies text_order(
                (#[trigger] after[a]).role,
                (#[trigger] after[b]).role,
            ) is Less by {
                assert(text_order(before[a].role, before[b].role) is Less);
            }
        }
        *self = ContentBindings { entries };
        Ok(previous)
    }
}

impl Clone for ContentBindings {
    fn clone(&self) -> (copy: Self)
        ensures
            copy.model() == self.model(),
    {
        proof {
            use_type_invariant(self);
        }
        let ghost model = self.model();
        let mut entries: Vec<(BindingKey, ContentId)> = Vec::new();
        let mut i: usize = 0;
        while i < self.entries.len()
            invariant
                i <= self.entries.len(),
                model == bounds_of(self.entries@),
                bounds_of(entries@) =~= model.take(i as int),
            decreases self.entries.len() - i,
        {
            let ghost seen = entries@;
            let entry = (self.entries[i].0.clone(), self.entries[i].1);
            entries.push(entry);
            assert(model[i as int] == bound(entry));
            assert(bounds_of(entries@) =~= bounds_of(seen).push(bound(entry)));
            assert(model.take(i + 1) =~= model.take(i as int).push(bound(entry)));
            i = i + 1;
        }
        assert(model.take(i as int) =~= model);
        ContentBindings { entries }
    }
}

/// Where a role that is not there would go: it is bound nowhere.
proof fn lemma_absent(bindings: Seq<Bound>, role: Seq<char>, at: int)
    requires
        in_name_order(bindings),
        0 <= at <= bindings.len(),
        forall|i: int| 0 <= i < at ==> text_order((#[trigger] bindings[i]).role, role) is Less,
        at < bindings.len() ==> text_order(bindings[at].role, role) is More,
    ensures
        content_of(bindings, role) is None,
{
    assert forall|k: int| !binds_at(bindings, role, k) by {
        if binds_at(bindings, role, k) {
            lemma_order_tells_apart(role, role);
            if k >= at {
                lemma_order_tells_apart(bindings[at].role, role);
                lemma_lex_composes(
                    text_key(role),
                    text_key(bindings[at].role),
                    text_key(bindings[k].role),
                    0,
                );
            }
        }
    }
}

/// Where the role stands, or where it would go.
fn place_of(entries: &Vec<(BindingKey, ContentId)>, role: &str) -> (result: (usize, bool))
    requires
        in_name_order(bounds_of(entries@)),
    ensures
        result.0 <= entries@.len(),
        result.1 ==> result.0 < entries@.len() && bounds_of(entries@)[result.0 as int].role
            == role@,
        !result.1 ==> {
            &&& forall|i: int|
                0 <= i < result.0 ==> text_order(
                    (#[trigger] bounds_of(entries@)[i]).role,
                    role@,
                ) is Less
            &&& result.0 < entries@.len() ==> text_order(
                bounds_of(entries@)[result.0 as int].role,
                role@,
            ) is More
        },
{
    let ghost bindings = bounds_of(entries@);
    let mut at: usize = 0;
    while at < entries.len()
        invariant
            at <= entries.len(),
            bindings == bounds_of(entries@),
            forall|i: int| 0 <= i < at ==> text_order((#[trigger] bindings[i]).role, role@) is Less,
        decreases entries.len() - at,
    {
        assert(bindings[at as int].role == entries@[at as int].0.name());
        match compare_text(entries[at].0.as_str(), role) {
            Order::Less => {},
            Order::Same => {
                proof {
                    lemma_order_tells_apart(bindings[at as int].role, role@);
                }
                return (at, true);
            },
            Order::More => {
                return (at, false);
            },
        }
        at = at + 1;
    }
    (at, false)
}

} // verus!
