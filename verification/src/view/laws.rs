//! What scenes, panes, bindings and views mean, in terms of what they hold.

use crate::protocol::{ContentId, Selection, SpaceId, ViewId};
use crate::text::{byte_len, law_texts_stand_by_their_bytes, text_order};
use crate::view::bindings::{
    binding_fault, binds_at, content_of, in_name_order, missing_role, pair_fault, rebound,
    refers_to, BindingFault, Bound,
};
use crate::view::compound::{link_index, linked_child, CompoundModel, LinkModel};
use crate::view::content_state::SelectionsModel;
use crate::view::definition::DefinitionModel;
use crate::view::extension::definition::{direction_of, ViewExtensionPaneSide};
use crate::view::extension::document::{
    context_told, document_told, place_from, place_of, selection_of, DocumentModel, RecordModel,
    TextPlace,
};
use crate::view::instance::{
    child_added, child_index, child_removed, child_replaced, document_of, fresh_view, rebind_fault,
    rebound_view, view_fault, with_pane, without_pane, ViewModel,
};
use crate::view::panes::{assigned, key_for, keys_differ, space_for, uses};
use crate::view::scene::{
    end_from, focusable_at, focusable_count, index_from, index_of, leaves, nodes_below, parent_at,
    parent_before, view_at, Leaf, SceneNode, SpaceKind,
};
use vstd::prelude::*;

verus! {

proof fn lemma_index_from(nodes: Seq<SceneNode>, space: SpaceId, i: int)
    requires
        0 <= i,
    ensures
        match index_from(nodes, space, i) {
            Some(at) => i <= at < nodes.len() && nodes[at].space == space && forall|k: int|
                i <= k < at ==> (#[trigger] nodes[k]).space != space,
            None => forall|k: int| i <= k < nodes.len() ==> (#[trigger] nodes[k]).space != space,
        },
    decreases nodes.len() - i,
{
    if i < nodes.len() {
        lemma_index_from(nodes, space, i + 1);
    }
}

/// A space is where its first node is: it shows what that node shows, and can have the focus where
/// that node can. A container, and a space that is not in the scene, shows nothing.
pub proof fn law_space_shows_its_node(nodes: Seq<SceneNode>, space: SpaceId, i: int)
    ensures
        0 <= i < nodes.len() && nodes[i].space == space && (forall|k: int|
            0 <= k < i ==> (#[trigger] nodes[k]).space != space) ==> {
            &&& index_of(nodes, space) == Some(i)
            &&& match nodes[i].kind {
                SpaceKind::Content { view, focusable } => view_at(nodes, space) == Some(view)
                    && focusable_at(nodes, space) == Some(focusable),
                SpaceKind::Container => view_at(nodes, space) is None && focusable_at(nodes, space)
                    is None,
            }
        },
        (forall|k: int| 0 <= k < nodes.len() ==> (#[trigger] nodes[k]).space != space)
            ==> index_of(nodes, space) is None && view_at(nodes, space) is None && focusable_at(
            nodes,
            space,
        ) is None,
{
    lemma_index_from(nodes, space, 0);
    if let Some(at) = index_of(nodes, space) {
        if 0 <= i < nodes.len() && nodes[i].space == space && (forall|k: int|
            0 <= k < i ==> (#[trigger] nodes[k]).space != space) {
            if at < i {
                assert(nodes[at].space != space);
            }
        }
    }
}

proof fn lemma_parent_before(nodes: Seq<SceneNode>, depth: usize, i: int)
    requires
        0 <= i <= nodes.len(),
    ensures
        match parent_before(nodes, depth, i) {
            Some(space) => exists|at: int|
                0 <= at < i && (#[trigger] nodes[at]).space == space && nodes[at].depth < depth
                    && forall|k: int| at < k < i ==> (#[trigger] nodes[k]).depth >= depth,
            None => forall|k: int| 0 <= k < i ==> (#[trigger] nodes[k]).depth >= depth,
        },
    decreases i,
{
    if i > 0 && nodes[i - 1].depth >= depth {
        lemma_parent_before(nodes, depth, i - 1);
        if let Some(space) = parent_before(nodes, depth, i) {
            let at = choose|at: int|
                0 <= at < i - 1 && (#[trigger] nodes[at]).space == space && nodes[at].depth < depth
                    && forall|k: int| at < k < i - 1 ==> (#[trigger] nodes[k]).depth >= depth;
            assert forall|k: int| at < k < i implies (#[trigger] nodes[k]).depth >= depth by {}
            assert(nodes[at].space == space);
        }
    } else if i > 0 {
        assert(nodes[i - 1].space == parent_before(nodes, depth, i)->0);
    }
}

/// What is around a space is the nearest node before it that is less deep.
pub proof fn law_parent_is_the_nearest_container(nodes: Seq<SceneNode>, space: SpaceId)
    ensures
        parent_at(nodes, space) matches Some(parent) ==> (index_of(nodes, space) matches Some(i)
            && exists|at: int|
            0 <= at < i && (#[trigger] nodes[at]).space == parent && nodes[at].depth
                < nodes[i].depth && forall|k: int|
                at < k < i ==> (#[trigger] nodes[k]).depth >= nodes[i].depth),
        parent_at(nodes, space) is None && index_of(nodes, space) is Some ==> forall|k: int|
            0 <= k < index_of(nodes, space)->0 ==> (#[trigger] nodes[k]).depth
                >= nodes[index_of(nodes, space)->0].depth,
{
    lemma_index_from(nodes, space, 0);
    if let Some(i) = index_of(nodes, space) {
        lemma_parent_before(nodes, nodes[i].depth, i);
    }
}

/// The leaves are the nodes that show a view, in their order.
pub proof fn law_leaves_are_what_is_shown(nodes: Seq<SceneNode>, more: SceneNode)
    ensures
        leaves(Seq::empty()) == Seq::<Leaf>::empty(),
        match more.kind {
            SpaceKind::Content { view, focusable } => leaves(nodes.push(more)) == leaves(
                nodes,
            ).push(Leaf { space: more.space, view }),
            SpaceKind::Container => leaves(nodes.push(more)) == leaves(nodes),
        },
{
    assert(nodes.push(more).drop_last() =~= nodes);
}

proof fn lemma_end_from(nodes: Seq<SceneNode>, depth: usize, i: int)
    requires
        0 <= i <= nodes.len(),
    ensures
        i <= end_from(nodes, depth, i) <= nodes.len(),
        forall|k: int| i <= k < end_from(nodes, depth, i) ==> (#[trigger] nodes[k]).depth > depth,
        end_from(nodes, depth, i) < nodes.len() ==> nodes[end_from(nodes, depth, i)].depth
            <= depth,
    decreases nodes.len() - i,
{
    if i < nodes.len() && nodes[i].depth > depth {
        lemma_end_from(nodes, depth, i + 1);
    }
}

/// Below a node is it and what follows it for as long as it is deeper.
pub proof fn law_below_is_what_is_deeper(nodes: Seq<SceneNode>, i: int)
    requires
        0 <= i < nodes.len(),
    ensures
        nodes_below(nodes, i).len() >= 1,
        nodes_below(nodes, i)[0] == nodes[i],
        forall|k: int|
            0 <= k < nodes_below(nodes, i).len() ==> #[trigger] nodes_below(nodes, i)[k]
                == nodes[i + k],
        forall|k: int|
            0 < k < nodes_below(nodes, i).len() ==> (#[trigger] nodes_below(nodes, i)[k]).depth
                > nodes[i].depth,
        i + nodes_below(nodes, i).len() < nodes.len() ==> nodes[i + nodes_below(
            nodes,
            i,
        ).len()].depth <= nodes[i].depth,
{
    lemma_end_from(nodes, nodes[i].depth, i + 1);
}

/// As many leaves can have the focus as there are leaves that can.
pub proof fn law_focusable_leaves_are_counted(nodes: Seq<SceneNode>, list: Seq<Leaf>)
    ensures
        focusable_count(nodes, list) == list.filter(
            |leaf: Leaf| focusable_at(nodes, leaf.space) == Some(true),
        ).len(),
    decreases list.len(),
{
    reveal(Seq::filter);
    if list.len() > 0 {
        law_focusable_leaves_are_counted(nodes, list.drop_last());
    }
}

/// A space that is used for something is the only one that is, and is used for nothing else. All
/// other spaces stay as they were.
pub proof fn law_assigned_space_is_used_for_that(
    panes: Map<SpaceId, Seq<char>>,
    space: SpaceId,
    key: Seq<char>,
    other: SpaceId,
)
    ensures
        key_for(assigned(panes, space, key), space) == Some(key),
        space_for(assigned(panes, space, key), key) == Some(space),
        other != space && panes.contains_key(other) && panes[other] != key ==> key_for(
            assigned(panes, space, key),
            other,
        ) == Some(panes[other]),
        other != space && (!panes.contains_key(other) || panes[other] == key) ==> key_for(
            assigned(panes, space, key),
            other,
        ) is None,
{
    let after = assigned(panes, space, key);
    assert(uses(after, key, space));
    let found = choose|found: SpaceId| uses(after, key, found);
    assert(uses(after, key, found));
}

/// A space is found by what it is used for, and nothing is found where no space is.
pub proof fn law_space_is_found_by_its_key(
    panes: Map<SpaceId, Seq<char>>,
    key: Seq<char>,
    space: SpaceId,
)
    requires
        keys_differ(panes),
    ensures
        panes.contains_key(space) && panes[space] == key ==> space_for(panes, key) == Some(space),
        space_for(panes, key) matches Some(found) ==> panes.contains_key(found) && panes[found]
            == key,
        key_for(panes, space) is Some <==> panes.contains_key(space),
        panes.contains_key(space) ==> key_for(panes, space) == Some(panes[space]),
{
    if panes.contains_key(space) && panes[space] == key {
        assert(uses(panes, key, space));
        let found = choose|found: SpaceId| uses(panes, key, found);
        assert(uses(panes, key, found));
        assert(panes[found] == panes[space]);
    }
}

/// To give a view a space, or take one from it, leaves what the view is about alone.
pub proof fn law_panes_leave_the_view_alone(view: ViewModel, space: SpaceId, key: Seq<char>)
    ensures
        ({
            let given = with_pane(view, space, key);
            &&& given.panes == assigned(view.panes, space, key)
            &&& given.definition == view.definition && given.bindings == view.bindings
                && given.document_state == view.document_state && given.revision == view.revision
                && given.binding_revision == view.binding_revision && given.switchable
                == view.switchable && given.parent == view.parent && given.children
                == view.children
        }),
        ({
            let taken = without_pane(view, space);
            &&& !taken.panes.contains_key(space)
            &&& forall|other: SpaceId|
                other != space ==> #[trigger] taken.panes.contains_key(other)
                    == view.panes.contains_key(other)
            &&& forall|other: SpaceId|
                #[trigger] taken.panes.contains_key(other) ==> taken.panes[other]
                    == view.panes[other]
            &&& taken.definition == view.definition && taken.bindings == view.bindings
                && taken.document_state == view.document_state && taken.revision == view.revision
                && taken.binding_revision == view.binding_revision && taken.switchable
                == view.switchable && taken.parent == view.parent && taken.children
                == view.children
        }),
{
}

/// A role has the content that it is bound to, and none where it is not bound.
pub proof fn law_role_has_its_content(bindings: Seq<Bound>, role: Seq<char>, i: int)
    requires
        in_name_order(bindings),
    ensures
        0 <= i < bindings.len() && bindings[i].role == role ==> content_of(bindings, role) == Some(
            bindings[i].content,
        ),
        (forall|k: int| 0 <= k < bindings.len() ==> (#[trigger] bindings[k]).role != role)
            ==> content_of(bindings, role) is None,
{
    if 0 <= i < bindings.len() && bindings[i].role == role {
        assert(binds_at(bindings, role, i));
        let k = choose|k: int| binds_at(bindings, role, k);
        assert(binds_at(bindings, role, k));
        law_texts_stand_by_their_bytes(role, role);
        if k < i {
            assert(text_order(bindings[k].role, bindings[i].role) is Less);
        } else if i < k {
            assert(text_order(bindings[i].role, bindings[k].role) is Less);
        }
    }
}

/// A view refers to a content exactly where some role of it is bound to that.
pub proof fn law_references_are_bindings(bindings: Seq<Bound>, content: ContentId)
    ensures
        refers_to(bindings, content) <==> exists|i: int|
            0 <= i < bindings.len() && (#[trigger] bindings[i]).content == content,
{
}

proof fn lemma_pair_fault(definition: DefinitionModel, given: Seq<Bound>, i: int)
    requires
        0 <= i,
    ensures
        pair_fault(definition, given, i) is None <==> forall|k: int|
            #![trigger given[k]]
            i <= k < given.len() ==> definition.bindings.contains(given[k].role) && forall|j: int|
                0 <= j < k ==> (#[trigger] given[j]).role != given[k].role,
        pair_fault(definition, given, i) matches Some(BindingFault::Unknown(role))
            ==> !definition.bindings.contains(role) && exists|k: int|
            i <= k < given.len() && (#[trigger] given[k]).role == role,
        pair_fault(definition, given, i) matches Some(BindingFault::Duplicate(role)) ==> exists|
            j: int,
            k: int,
        |
            0 <= j < k < given.len() && (#[trigger] given[j]).role == role && (
            #[trigger] given[k]).role == role,
        pair_fault(definition, given, i) matches Some(fault) ==> fault is Unknown || fault
            is Duplicate,
    decreases given.len() - i,
{
    if i < given.len() {
        lemma_pair_fault(definition, given, i + 1);
        if definition.bindings.contains(given[i].role) && exists|j: int|
            0 <= j < i && (#[trigger] given[j]).role == given[i].role {
            let j = choose|j: int| 0 <= j < i && (#[trigger] given[j]).role == given[i].role;
            assert(given[j].role == given[i].role);
        }
    }
}

proof fn lemma_missing_role(definition: DefinitionModel, given: Seq<Bound>, i: int)
    requires
        0 <= i,
    ensures
        missing_role(definition, given, i) is None <==> forall|k: int|
            #![trigger definition.bindings[k]]
            i <= k < definition.bindings.len() ==> exists|j: int|
                0 <= j < given.len() && (#[trigger] given[j]).role == definition.bindings[k],
        missing_role(definition, given, i) matches Some(role) ==> definition.bindings.contains(role)
            && forall|j: int| 0 <= j < given.len() ==> (#[trigger] given[j]).role != role,
    decreases definition.bindings.len() - i,
{
    if i < definition.bindings.len() {
        lemma_missing_role(definition, given, i + 1);
        assert(definition.bindings.contains(definition.bindings[i]));
    }
}

/// Bindings fit a definition exactly where they bind roles that it declares, none twice, and every
/// one that it declares. A fault names a role for which that is not so.
pub proof fn law_bindings_fit_exactly(definition: DefinitionModel, given: Seq<Bound>)
    ensures
        binding_fault(definition, given) is None <==> {
            &&& forall|k: int|
                #![trigger given[k]]
                0 <= k < given.len() ==> definition.bindings.contains(given[k].role) && forall|
                    j: int,
                |
                    0 <= j < k ==> (#[trigger] given[j]).role != given[k].role
            &&& forall|k: int|
                #![trigger definition.bindings[k]]
                0 <= k < definition.bindings.len() ==> exists|j: int|
                    0 <= j < given.len() && (#[trigger] given[j]).role == definition.bindings[k]
        },
        binding_fault(definition, given) matches Some(BindingFault::Unknown(role))
            ==> !definition.bindings.contains(role) && exists|k: int|
            0 <= k < given.len() && (#[trigger] given[k]).role == role,
        binding_fault(definition, given) matches Some(BindingFault::Duplicate(role)) ==> exists|
            j: int,
            k: int,
        |
            0 <= j < k < given.len() && (#[trigger] given[j]).role == role && (
            #[trigger] given[k]).role == role,
        binding_fault(definition, given) matches Some(BindingFault::Missing(role))
            ==> definition.bindings.contains(role) && forall|j: int|
            0 <= j < given.len() ==> (#[trigger] given[j]).role != role,
{
    lemma_pair_fault(definition, given, 0);
    lemma_missing_role(definition, given, 0);
}

/// A view has the state of a document exactly where its definition declares the document, and
/// starts on its own, switchable, shown nowhere and at its first revision.
pub proof fn law_fresh_view_stands_alone(
    definition: DefinitionModel,
    given: Seq<Bound>,
    has_state: bool,
    name: Seq<char>,
    state: Option<Option<SelectionsModel>>,
)
    ensures
        view_fault(definition, given, has_state) is None ==> has_state
            == definition.bindings.contains("document"@) && binding_fault(definition, given)
            is None,
        has_state == definition.bindings.contains("document"@) ==> view_fault(
            definition,
            given,
            has_state,
        ) == binding_fault(definition, given),
        ({
            let view = fresh_view(name, given, state);
            &&& view.definition == name && view.bindings == given && view.document_state == state
            &&& view.switchable
            &&& view.parent is None
            &&& view.children.len() == 0
            &&& view.revision == 0 && view.binding_revision == 0
            &&& forall|space: SpaceId| !#[trigger] view.panes.contains_key(space)
        }),
        document_of(fresh_view(name, given, state)) == content_of(given, "document"@),
{
}

/// To bind a role of a view to another content changes that role and no other, and counts a
/// revision; to bind it to the content that it has changes nothing.
pub proof fn law_rebound_view_changes_one_role(
    view: ViewModel,
    role: Seq<char>,
    content: ContentId,
    state: Option<Option<SelectionsModel>>,
    other: Seq<char>,
)
    requires
        in_name_order(view.bindings),
        view.revision < u64::MAX,
        view.binding_revision < u64::MAX,
        content_of(view.bindings, role) is Some,
    ensures
        ({
            let after = rebound_view(view, role, content, state);
            &&& content_of(view.bindings, role) == Some(content) ==> after == view
            &&& content_of(view.bindings, role) != Some(content) ==> {
                &&& content_of(after.bindings, role) == Some(content)
                &&& other != role ==> content_of(after.bindings, other) == content_of(
                    view.bindings,
                    other,
                )
                &&& after.revision == view.revision + 1
                &&& after.binding_revision == view.binding_revision + 1
                &&& state is Some ==> after.document_state == state
                &&& state is None ==> after.document_state == view.document_state
            }
            &&& after.definition == view.definition && after.panes == view.panes && after.switchable
                == view.switchable && after.parent == view.parent && after.children
                == view.children
        }),
        rebind_fault(view, role, role == "document"@) is None,
        rebind_fault(view, role, role != "document"@) == Some(BindingFault::DocumentStateMismatch),
{
    let after = rebound(view.bindings, role, content);
    assert forall|i: int, j: int| 0 <= i < j < after.len() implies text_order(
        (#[trigger] after[i]).role,
        (#[trigger] after[j]).role,
    ) is Less by {
        assert(text_order(view.bindings[i].role, view.bindings[j].role) is Less);
    }
    assert(in_name_order(after));
    let k = choose|k: int| binds_at(view.bindings, role, k);
    assert(binds_at(view.bindings, role, k));
    law_role_has_its_content(after, role, k);
    if other != role {
        if exists|m: int| binds_at(view.bindings, other, m) {
            let m = choose|m: int| binds_at(view.bindings, other, m);
            assert(binds_at(view.bindings, other, m));
            assert(after[m] == view.bindings[m]);
            law_role_has_its_content(after, other, m);
        } else {
            assert forall|m: int| 0 <= m < after.len() implies (#[trigger] after[m]).role
                != other by {
                assert(!binds_at(view.bindings, other, m));
            }
            law_role_has_its_content(after, other, 0);
        }
    }
}

proof fn lemma_child_index(children: Seq<ViewId>, child: ViewId, i: int)
    requires
        0 <= i,
    ensures
        match child_index(children, child, i) {
            Some(at) => i <= at < children.len() && children[at] == child && forall|k: int|
                i <= k < at ==> #[trigger] children[k] != child,
            None => forall|k: int| i <= k < children.len() ==> #[trigger] children[k] != child,
        },
    decreases children.len() - i,
{
    if i < children.len() {
        lemma_child_index(children, child, i + 1);
    }
}

/// A child that is added comes last and is there once; one that is removed is there no more, and
/// the others keep their order; one that is replaced gives its place to the other.
pub proof fn law_children_keep_their_order(
    children: Seq<ViewId>,
    child: ViewId,
    replacement: ViewId,
    i: int,
)
    ensures
        !children.contains(child) ==> child_added(children, child) == children.push(child),
        children.contains(child) ==> child_added(children, child) == children,
        child_removed(children, child) == children.filter(|other: ViewId| other != child),
        !children.contains(child) ==> child_replaced(children, child, replacement) == children,
        0 <= i < children.len() && children[i] == child && (forall|k: int|
            0 <= k < i ==> #[trigger] children[k] != child) ==> child_replaced(
            children,
            child,
            replacement,
        ) == children.update(i, replacement),
{
    lemma_child_removed(children, child);
    lemma_child_index(children, child, 0);
    if let Some(at) = child_index(children, child, 0) {
        assert(children.contains(children[at]));
        if 0 <= i < children.len() && children[i] == child && at < i {
            assert(children[at] == child);
        }
    }
}

proof fn lemma_child_removed(children: Seq<ViewId>, child: ViewId)
    ensures
        child_removed(children, child) == children.filter(|other: ViewId| other != child),
    decreases children.len(),
{
    reveal(Seq::filter);
    if children.len() > 0 {
        lemma_child_removed(children.drop_last(), child);
    }
}

proof fn lemma_link_index(links: Seq<LinkModel>, parent: Seq<char>, i: int)
    requires
        0 <= i,
    ensures
        match link_index(links, parent, i) {
            Some(at) => i <= at < links.len() && links[at].parent == parent && forall|k: int|
                i <= k < at ==> (#[trigger] links[k]).parent != parent,
            None => forall|k: int| i <= k < links.len() ==> (#[trigger] links[k]).parent != parent,
        },
    decreases links.len() - i,
{
    if i < links.len() {
        lemma_link_index(links, parent, i + 1);
    }
}

/// The child that takes its content from a role of the parent is one that links a role of its own
/// to that, the first child before the second; where neither does there is none.
pub proof fn law_linked_child_takes_its_content(compound: CompoundModel, parent: Seq<char>)
    ensures
        match linked_child(compound, parent) {
            Some((index, role)) => {
                &&& index == 0 || index == 1
                &&& index == 0 ==> exists|k: int|
                    0 <= k < compound.first.links.len() && (
                    #[trigger] compound.first.links[k]).parent == parent
                        && compound.first.links[k].child == role
                &&& index == 1 ==> exists|k: int|
                    0 <= k < compound.second.links.len() && (
                    #[trigger] compound.second.links[k]).parent == parent
                        && compound.second.links[k].child == role
                &&& index == 1 ==> forall|k: int|
                    0 <= k < compound.first.links.len() ==> (
                    #[trigger] compound.first.links[k]).parent != parent
            },
            None => {
                &&& forall|k: int|
                    0 <= k < compound.first.links.len() ==> (
                    #[trigger] compound.first.links[k]).parent != parent
                &&& forall|k: int|
                    0 <= k < compound.second.links.len() ==> (
                    #[trigger] compound.second.links[k]).parent != parent
            },
        },
{
    lemma_link_index(compound.first.links, parent, 0);
    lemma_link_index(compound.second.links, parent, 0);
    if let Some(k) = link_index(compound.first.links, parent, 0) {
        assert(linked_child(compound, parent) == Some((0int, compound.first.links[k].child)));
    } else if let Some(k) = link_index(compound.second.links, parent, 0) {
        assert(linked_child(compound, parent) == Some((1int, compound.second.links[k].child)));
    }
}

/// A pane comes on the side that it asks for.
pub proof fn law_pane_comes_on_its_side(side: ViewExtensionPaneSide)
    ensures
        side is Left <==> direction_of(side) is Left,
        side is Right <==> direction_of(side) is Right,
        side is Above <==> direction_of(side) is Up,
        side is Below <==> direction_of(side) is Down,
{
}

proof fn lemma_place_from(places: Seq<TextPlace>, char_index: usize, i: int)
    requires
        0 <= i,
    ensures
        match place_from(places, char_index, i) {
            Some(position) => exists|k: int|
                i <= k < places.len() && (#[trigger] places[k]).char_index == char_index
                    && places[k].position == position,
            None => forall|k: int|
                i <= k < places.len() ==> (#[trigger] places[k]).char_index != char_index,
        },
    decreases places.len() - i,
{
    if i < places.len() {
        lemma_place_from(places, char_index, i + 1);
        if places[i].char_index == char_index {
            assert(places[i].position == place_from(places, char_index, i)->0);
        } else if let Some(position) = place_from(places, char_index, i + 1) {
            let k = choose|k: int|
                i + 1 <= k < places.len() && (#[trigger] places[k]).char_index == char_index
                    && places[k].position == position;
            assert(places[k].position == position);
        }
    }
}

/// An offset of a document is told as one of the places that are known for it.
pub proof fn law_offset_is_told_as_its_place(places: Seq<TextPlace>, char_index: usize)
    ensures
        match place_of(places, char_index) {
            Some(position) => exists|k: int|
                0 <= k < places.len() && (#[trigger] places[k]).char_index == char_index
                    && places[k].position == position,
            None => forall|k: int|
                0 <= k < places.len() ==> (#[trigger] places[k]).char_index != char_index,
        },
{
    lemma_place_from(places, char_index, 0);
}

/// What is told of a document is its content, revision, text and name as they are, and its
/// selections place by place, the primary one among them. A text that is too long is not told, nor
/// is a selection that has no place. Where a view has no document, or that has no text, nothing is
/// told, which is no fault.
pub proof fn law_document_is_told_as_it_is(
    view: ViewModel,
    contents: Map<u64, RecordModel>,
    maximum: usize,
)
    ensures
        document_of(view) is None ==> (document_told(view, contents, maximum) matches Ok(told)
            && told is None),
        document_of(view) matches Some(content) ==> (!contents.contains_key(content.0)
            ==> (document_told(view, contents, maximum) matches Ok(told) && told is None)),
        document_told(view, contents, maximum) matches Ok(Some(told)) ==> {
            let content = document_of(view)->0;
            let record = contents[content.0];
            let selections = view.document_state->0->0;
            &&& document_of(view) == Some(told.content)
            &&& contents.contains_key(content.0)
            &&& told.revision == record.revision
            &&& told.resource_name == record.resource_name
            &&& record.text is Some
            &&& told.text == record.text->0.text
            &&& byte_len(told.text) <= maximum
            &&& told.selections.len() == selections.all.len()
            &&& forall|k: int|
                0 <= k < told.selections.len() ==> {
                    &&& place_of(record.text->0.places, selections.all[k].anchor.char_index)
                        == Some((#[trigger] told.selections[k]).anchor)
                    &&& place_of(record.text->0.places, selections.all[k].head.char_index) == Some(
                        told.selections[k].head,
                    )
                }
            &&& selection_of(record.text->0.places, selections.all[selections.primary]) == Some(
                told.primary,
            )
        },
        document_of(view) matches Some(content) ==> (contents.contains_key(content.0)
            && view.document_state is Some && view.document_state->0 is Some && (
        contents[content.0].text matches Some(text) && byte_len(text.text) > maximum)
            ==> document_told(view, contents, maximum) is Err),
        document_of(view) matches Some(content) ==> (view.document_state matches Some(
            Some(selections),
        ) ==> (contents.contains_key(content.0) ==> (contents[content.0].text matches Some(text)
            ==> (byte_len(text.text) <= maximum ==> {
            let placed = |selection: Selection|
                place_of(text.places, selection.anchor.char_index) is Some && place_of(
                    text.places,
                    selection.head.char_index,
                ) is Some;
            let all_placed = placed(selections.all[selections.primary]) && forall|k: int|
                0 <= k < selections.all.len() ==> placed(#[trigger] selections.all[k]);
            &&& all_placed ==> (document_told(view, contents, maximum) matches Ok(told) && told
                is Some)
            &&& !all_placed ==> document_told(view, contents, maximum) == Err::<
                Option<DocumentModel>,
                Seq<char>,
            >("View extension selection is invalid"@)
        })))),
        document_of(view) matches Some(content) ==> (contents.contains_key(content.0)
            && contents[content.0].text is None ==> (document_told(view, contents, maximum)
            matches Ok(told) && told is None)),
{
}

/// An extension is told which view it shows a pane for, as it is, together with its document.
pub proof fn law_context_is_of_the_view(
    id: ViewId,
    view: ViewModel,
    contents: Map<u64, RecordModel>,
    maximum: usize,
)
    ensures
        context_told(id, view, contents, maximum) is Ok <==> document_told(view, contents, maximum)
            is Ok,
        context_told(id, view, contents, maximum) matches Ok(context) ==> {
            &&& context.view == id
            &&& context.definition == view.definition
            &&& context.revision == view.revision
            &&& context.bindings == view.bindings
            &&& document_told(view, contents, maximum) == Ok::<
                Option<DocumentModel>,
                Seq<char>,
            >(context.document)
        },
{
}

} // verus!
