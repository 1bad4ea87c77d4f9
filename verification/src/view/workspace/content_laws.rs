//! What closing a content does to the views that are about it.

use crate::protocol::{ContentId, ViewId};
use crate::view::bindings::content_of;
use crate::view::forest::{
    covered_within, is_forest, law_forest_has_subtrees, law_owners_are_nested,
    law_subtree_is_closed, law_subtree_is_what_is_under,
    lemma_under_is_covered, lemma_under_parent, rooted, rooted_within, subtree, switch_target,
    switchable_above, under, under_within,
};
use crate::view::instance::{document_of, ViewModel};
use crate::view::scene::Exchange;
use crate::view::soundness::{
    family_agrees, is_child_of, views_ready, workspace_sound, WorkspaceModel,
};
use crate::view::workspace::closing::{was_closed, was_replaced, whole_of};
use crate::view::workspace::contents::{
    closed_in_turn, content_closed, first_with_focus, has_removal_root, law_content_close_removes,
    lemma_closing_adds_nothing, lemma_listing, lemma_lists_both, listing, lists, replaced_root,
    roots_but, roots_closed, step_closes, step_starts, CloseStep, ReplaceStep,
};
use crate::view::workspace::outcomes::{
    law_close_removes_its_part, law_replacement_removes_its_part,
};
use crate::view::workspace::queries::{
    goes_with, is_removal_root, is_target, lemma_sound_forest, lemma_target_is_there,
    targets_of, without_owner,
};
use vstd::prelude::*;
use vstd::view::View as _;

verus! {

/// The view is, or is part of, one of the views.
pub open spec fn under_any(views: Map<u64, ViewModel>, roots: Seq<u64>, view: u64) -> bool {
    exists|i: int| 0 <= i < roots.len() && under(views, view, #[trigger] roots[i])
}

/// No view of the list is part of another one.
spec fn apart(views: Map<u64, ViewModel>, roots: Seq<u64>) -> bool {
    &&& forall|i: int| 0 <= i < roots.len() ==> views.contains_key(#[trigger] roots[i])
    &&& forall|i: int, j: int|
        0 <= i < roots.len() && 0 <= j < roots.len() && i != j ==> !under(
            views,
            #[trigger] roots[i],
            #[trigger] roots[j],
        )
}

/// Of the views that were there, those that are part of the closed ones are gone, and the others
/// have the parents that they had.
spec fn partly_closed(
    before: Map<u64, ViewModel>,
    after: Map<u64, ViewModel>,
    closed: Seq<u64>,
) -> bool {
    &&& forall|view: u64| #[trigger]
        before.contains_key(view) ==> (after.contains_key(view) <==> !under_any(
            before,
            closed,
            view,
        ))
    &&& forall|view: u64| #[trigger]
        before.contains_key(view) && after.contains_key(view) ==> after[view].parent
            == before[view].parent
}

proof fn lemma_parent_is_there(views: Map<u64, ViewModel>, view: u64, parent: ViewId)
    requires
        is_forest(views),
        views.contains_key(view),
        views[view].parent == Some(parent),
    ensures
        views.contains_key(parent.0),
{
    assert(family_agrees(views, view));
}

proof fn lemma_under_before(
    before: Map<u64, ViewModel>,
    after: Map<u64, ViewModel>,
    closed: Seq<u64>,
    view: u64,
    root: u64,
    steps: nat,
)
    requires
        is_forest(before),
        partly_closed(before, after, closed),
        before.contains_key(view),
        under_within(after, view, root, steps),
    ensures
        under_within(before, view, root, steps),
    decreases steps,
{
    if view != root {
        if let Some(parent) = after[view].parent {
            assert(before[view].parent == Some(parent));
            lemma_parent_is_there(before, view, parent);
            lemma_under_before(before, after, closed, parent.0, root, (steps - 1) as nat);
        }
    }
}

/// What is part of a view that is not closed yet is still there.
proof fn lemma_not_closed_yet(
    before: Map<u64, ViewModel>,
    closed: Seq<u64>,
    root: u64,
    view: u64,
)
    requires
        under(before, view, root),
        apart(before, closed.push(root)),
    ensures
        !under_any(before, closed, view),
{
    if under_any(before, closed, view) {
        let all = closed.push(root);
        let i = choose|i: int| 0 <= i < closed.len() && under(before, view, #[trigger] closed[i]);
        law_owners_are_nested(before, view, root, closed[i]);
        assert(all[i] == closed[i]);
        assert(all[closed.len() as int] == root);
        assert(!under(before, all[i], all[closed.len() as int]));
        assert(!under(before, all[closed.len() as int], all[i]));
    }
}

proof fn lemma_under_after(
    before: Map<u64, ViewModel>,
    after: Map<u64, ViewModel>,
    closed: Seq<u64>,
    view: u64,
    root: u64,
    steps: nat,
)
    requires
        is_forest(before),
        partly_closed(before, after, closed),
        apart(before, closed.push(root)),
        under_within(before, view, root, steps),
    ensures
        under_within(after, view, root, steps),
    decreases steps,
{
    assert(under(before, view, root));
    lemma_not_closed_yet(before, closed, root, view);
    assert(before.contains_key(view));
    assert(after.contains_key(view));
    if view != root {
        if let Some(parent) = before[view].parent {
            lemma_under_after(before, after, closed, parent.0, root, (steps - 1) as nat);
        }
    }
}

/// What is part of a view that is not closed yet is what was part of it.
proof fn lemma_same_under(
    before: Map<u64, ViewModel>,
    after: Map<u64, ViewModel>,
    closed: Seq<u64>,
    view: u64,
    root: u64,
)
    requires
        is_forest(before),
        partly_closed(before, after, closed),
        apart(before, closed.push(root)),
        before.contains_key(view),
    ensures
        under(after, view, root) <==> under(before, view, root),
{
    if under(after, view, root) {
        let steps = choose|steps: nat| #[trigger] under_within(after, view, root, steps);
        lemma_under_before(before, after, closed, view, root, steps);
    }
    if under(before, view, root) {
        let steps = choose|steps: nat| #[trigger] under_within(before, view, root, steps);
        lemma_under_after(before, after, closed, view, root, steps);
    }
}

proof fn lemma_under_any_push(
    views: Map<u64, ViewModel>,
    roots: Seq<u64>,
    root: u64,
    view: u64,
)
    ensures
        under_any(views, roots.push(root), view) <==> under_any(views, roots, view) || under(
            views,
            view,
            root,
        ),
{
    let all = roots.push(root);
    if under_any(views, roots, view) {
        let i = choose|i: int| 0 <= i < roots.len() && under(views, view, #[trigger] roots[i]);
        assert(all[i] == roots[i]);
    }
    if under(views, view, root) {
        assert(all[roots.len() as int] == root);
    }
    if under_any(views, all, view) {
        let i = choose|i: int| 0 <= i < all.len() && under(views, view, #[trigger] all[i]);
        if i < roots.len() {
            assert(roots[i] == all[i]);
        }
    }
}

/// Closing one more view as a whole.
proof fn lemma_one_more_closed(
    before: Map<u64, ViewModel>,
    middle: WorkspaceModel,
    after: Map<u64, ViewModel>,
    closed: Seq<u64>,
    root: u64,
)
    requires
        is_forest(before),
        is_forest(middle.views),
        partly_closed(before, middle.views, closed),
        apart(before, closed.push(root)),
        forall|view: u64| #[trigger]
            middle.views.contains_key(view) ==> (after.contains_key(view) <==> !whole_of(
                middle,
                root,
            ).contains(view)) && (after.contains_key(view) ==> after[view].parent
                == middle.views[view].parent),
        forall|view: u64|
            before.contains_key(view) && !middle.views.contains_key(view)
                ==> !#[trigger] after.contains_key(view),
    ensures
        partly_closed(before, after, closed.push(root)),
{
    let all = closed.push(root);
    assert(all[closed.len() as int] == root);
    assert(before.contains_key(root));
    assert(under_within(before, root, root, 1));
    lemma_not_closed_yet(before, closed, root, root);
    assert(middle.views.contains_key(root));
    assert forall|view: u64| #[trigger] before.contains_key(view) implies (after.contains_key(view)
        <==> !under_any(before, all, view)) && (after.contains_key(view) ==> after[view].parent
        == before[view].parent) by {
        lemma_under_any_push(before, closed, root, view);
        lemma_same_under(before, middle.views, closed, view, root);
        law_subtree_is_what_is_under(middle.views, root, view);
        if middle.views.contains_key(view) {
            assert(whole_of(middle, root).contains(view) <==> under(middle.views, view, root));
        }
    }
}

proof fn lemma_closed_in_turn(
    before: Map<u64, ViewModel>,
    start: WorkspaceModel,
    after: WorkspaceModel,
    said: Seq<Exchange>,
    removed: Seq<(u64, ViewModel)>,
    first: Seq<u64>,
    roots: Seq<u64>,
    steps: Seq<CloseStep>,
)
    requires
        is_forest(before),
        partly_closed(before, start.views, first),
        apart(before, first + roots),
        closed_in_turn(start, after, said, removed, roots, steps),
    ensures
        partly_closed(before, after.views, first + roots),
    decreases roots.len(),
{
    if roots.len() == 0 {
        assert(first + roots =~= first);
    } else {
        let step = steps.last();
        let rest = roots.drop_last();
        let root = roots.last();
        let closed = first + rest;
        assert(first + roots =~= closed.push(root));
        assert(apart(before, closed)) by {
            let all = first + roots;
            assert forall|i: int| 0 <= i < closed.len() implies before.contains_key(
                #[trigger] closed[i],
            ) by {
                assert(all[i] == closed[i]);
            }
            assert forall|i: int, j: int|
                0 <= i < closed.len() && 0 <= j < closed.len() && i != j implies !under(
                before,
                #[trigger] closed[i],
                #[trigger] closed[j],
            ) by {
                assert(all[i] == closed[i]);
                assert(all[j] == closed[j]);
            }
        }
        lemma_closed_in_turn(
            before,
            start,
            step.middle,
            step.said,
            step.removed,
            first,
            rest,
            steps.drop_last(),
        );
        assert(steps[steps.len() - 1] == step);
        lemma_sound_forest(step.middle);
        lemma_step_effect(step, after, said, removed, root);
        lemma_one_more_closed(before, step.middle, after.views, closed, root);
    }
}

/// What a step does to the views.
proof fn lemma_step_effect(
    step: CloseStep,
    after: WorkspaceModel,
    said: Seq<Exchange>,
    removed: Seq<(u64, ViewModel)>,
    root: u64,
)
    requires
        step_closes(step, after, said, removed, root),
    ensures
        forall|view: u64| #[trigger]
            step.middle.views.contains_key(view) ==> (after.views.contains_key(view) <==> !whole_of(
                step.middle,
                root,
            ).contains(view)) && (after.views.contains_key(view) ==> after.views[view].parent
                == step.middle.views[view].parent),
        forall|view: u64|
            !step.middle.views.contains_key(view) ==> !#[trigger] after.views.contains_key(view),
{
    assert forall|view: u64| #[trigger] step.middle.views.contains_key(view) implies (
    after.views.contains_key(view) <==> !whole_of(step.middle, root).contains(view)) && (
    after.views.contains_key(view) ==> after.views[view].parent
        == step.middle.views[view].parent) by {
        law_close_removes_its_part(
            step.middle,
            step.closed,
            step.last_said,
            root,
            step.target,
            step.neighbor,
            step.spaces,
            step.scene,
            view,
        );
    }
    reveal(was_closed);
    assert forall|view: u64|
        !step.middle.views.contains_key(view) implies !#[trigger] after.views.contains_key(view) by {
        assert(!step.closed.views.dom().contains(view));
    }
}

proof fn lemma_roots_but(roots: Seq<u64>, skipped: Option<u64>, root: u64)
    ensures
        roots_but(roots, skipped).contains(root) <==> roots.contains(root) && Some(root)
            != skipped,
        roots.no_duplicates() ==> roots_but(roots, skipped).no_duplicates(),
    decreases roots.len(),
{
    let list = roots_but(roots, skipped);
    if roots.len() > 0 {
        let rest = roots.drop_last();
        let last = roots.last();
        let before = roots_but(rest, skipped);
        lemma_roots_but(rest, skipped, root);
        lemma_roots_but(rest, skipped, last);
        if roots.contains(root) {
            let k = choose|k: int| 0 <= k < roots.len() && roots[k] == root;
            if k < rest.len() {
                assert(rest[k] == root);
            }
        }
        if rest.contains(root) {
            let k = choose|k: int| 0 <= k < rest.len() && rest[k] == root;
            assert(roots[k] == root);
        }
        assert(roots[roots.len() - 1] == last);
        if before.contains(root) {
            let k = choose|k: int| 0 <= k < before.len() && before[k] == root;
            assert(list[k] == root);
        }
        if list.contains(root) {
            let k = choose|k: int| 0 <= k < list.len() && list[k] == root;
            if k < before.len() {
                assert(before[k] == root);
            }
        }
        if Some(last) != skipped {
            assert(list[list.len() - 1] == last);
        }
        if roots.no_duplicates() {
            assert(rest.no_duplicates());
            if rest.contains(last) {
                let k = choose|k: int| 0 <= k < rest.len() && rest[k] == last;
                assert(roots[k] == roots[roots.len() - 1]);
            }
            assert forall|i: int, j: int| 0 <= i < list.len() && 0 <= j < list.len() && i
                != j implies list[i] != list[j] by {
                if Some(last) != skipped {
                    if i == before.len() {
                        assert(before[j] == list[j]);
                        assert(before.contains(list[j]));
                    } else if j == before.len() {
                        assert(before[i] == list[i]);
                        assert(before.contains(list[i]));
                    } else {
                        assert(before[i] == list[i]);
                        assert(before[j] == list[j]);
                    }
                }
            }
        }
    }
}

/// Views that go with a content, and are part of none that does, are apart.
proof fn lemma_roots_are_apart(workspace: WorkspaceModel, content: ContentId, roots: Seq<u64>)
    requires
        is_forest(workspace.views),
        roots.no_duplicates(),
        forall|i: int|
            0 <= i < roots.len() ==> is_removal_root(workspace, content, #[trigger] roots[i]),
    ensures
        apart(workspace.views, roots),
{
    let views = workspace.views;
    let targets = targets_of(workspace, content);
    assert forall|i: int| 0 <= i < roots.len() implies views.contains_key(#[trigger] roots[i]) by {
        lemma_target_is_there(workspace, content, roots[i]);
    }
    assert forall|i: int, j: int|
        0 <= i < roots.len() && 0 <= j < roots.len() && i != j implies !under(
        views,
        #[trigger] roots[i],
        #[trigger] roots[j],
    ) by {
        if under(views, roots[i], roots[j]) {
            assert(views.contains_key(roots[i]));
            assert(rooted(views, roots[i]));
            assert(targets.contains(roots[j]));
            lemma_under_is_covered(views, targets, roots[i], roots[j], views.dom().len());
        }
    }
}

/// The view that another one takes the place of, where there is one.
spec fn first_root(
    before: WorkspaceModel,
    replacement: Option<ViewModel>,
    step: ReplaceStep,
) -> Seq<u64> {
    match replacement {
        Some(_) => seq![replaced_root(before, step.roots)],
        None => Seq::empty(),
    }
}

/// The views that are closed, in their turn.
spec fn closing_roots(
    before: WorkspaceModel,
    replacement: Option<ViewModel>,
    step: ReplaceStep,
) -> Seq<u64> {
    let skipped = match replacement {
        Some(_) => Some(replaced_root(before, step.roots)),
        None => None,
    };
    first_root(before, replacement, step) + roots_but(step.roots, skipped)
}

/// The views that are closed are apart from one another, and the first one is closed as a whole.
proof fn lemma_closing_is_apart(
    before: WorkspaceModel,
    after: WorkspaceModel,
    said: Seq<Exchange>,
    removed: Seq<(u64, ViewModel)>,
    content: ContentId,
    replacement: Option<ViewModel>,
    step: ReplaceStep,
)
    requires
        views_ready(before),
        workspace_sound(before),
        content_closed(before, after, said, removed, content, replacement, step),
        has_removal_root(before, content),
    ensures
        apart(before.views, closing_roots(before, replacement, step)),
        partly_closed(before.views, step.start.views, first_root(before, replacement, step)),
        forall|i: int|
            0 <= i < closing_roots(before, replacement, step).len() ==> is_removal_root(
                before,
                content,
                #[trigger] closing_roots(before, replacement, step)[i],
            ),
{
    reveal(roots_closed);
    let views = before.views;
    let roots = step.roots;
    lemma_sound_forest(before);
    let some_root = choose|root: u64| #[trigger] is_removal_root(before, content, root);
    assert(roots.contains(some_root));
    assert forall|i: int, j: int| 0 <= i < roots.len() && 0 <= j < roots.len() && i
        != j implies roots[i] != roots[j] by {
        if i < j {
            assert(roots[i] < roots[j]);
        } else {
            assert(roots[j] < roots[i]);
        }
    }
    assert forall|i: int| 0 <= i < roots.len() implies is_removal_root(
        before,
        content,
        #[trigger] roots[i],
    ) by {
        assert(roots.contains(roots[i]));
    }
    let root = replaced_root(before, roots);
    let skipped = match replacement {
        Some(_) => Some(root),
        None => None,
    };
    let rest = roots_but(roots, skipped);
    let first = match replacement {
        Some(_) => seq![root],
        None => Seq::<u64>::empty(),
    };
    let all = first + rest;
    lemma_replaced_root_is_one(before, roots, 0);
    lemma_roots_but(roots, skipped, root);
    assert forall|i: int| 0 <= i < all.len() implies is_removal_root(
        before,
        content,
        #[trigger] all[i],
    ) by {
        if i >= first.len() {
            assert(rest[i - first.len()] == all[i]);
            assert(rest.contains(all[i]));
            lemma_roots_but(roots, skipped, all[i]);
        } else {
            assert(all[i] == root);
        }
        assert(roots.contains(all[i]));
    }
    assert forall|i: int, j: int| 0 <= i < all.len() && 0 <= j < all.len() && i != j implies all[i]
        != all[j] by {
        let a = if i < j {
            i
        } else {
            j
        };
        let b = if i < j {
            j
        } else {
            i
        };
        assert(rest[b - first.len()] == all[b]);
        if a < first.len() {
            assert(all[a] == root);
            assert(rest.contains(all[b]));
            lemma_roots_but(roots, skipped, all[b]);
        } else {
            assert(rest[a - first.len()] == all[a]);
        }
    }
    lemma_roots_are_apart(before, content, all);
    assert(partly_closed(views, step.start.views, first)) by {
        match replacement {
            Some(model) => {
                lemma_replacement_effect(before, model, step);
                assert(first =~= Seq::<u64>::empty().push(root));
                assert(partly_closed(views, views, Seq::empty()));
                assert(apart(views, Seq::<u64>::empty().push(root))) by {
                    assert(all[0] == root);
                }
                lemma_one_more_closed(
                    views,
                    before,
                    step.start.views,
                    Seq::empty(),
                    root,
                );
            },
            None => {},
        }
    }
}

/// Once a content is closed, exactly the views that go with it, and what is part of them, are gone.
#[verifier::rlimit(40)]
pub proof fn law_content_close_takes_what_goes(
    before: WorkspaceModel,
    after: WorkspaceModel,
    said: Seq<Exchange>,
    removed: Seq<(u64, ViewModel)>,
    content: ContentId,
    replacement: Option<ViewModel>,
    step: ReplaceStep,
    view: u64,
)
    requires
        views_ready(before),
        workspace_sound(before),
        content_closed(before, after, said, removed, content, replacement, step),
        has_removal_root(before, content),
        before.views.contains_key(view),
    ensures
        after.views.contains_key(view) <==> !goes_with(before, content, view),
{
    let views = before.views;
    let roots = step.roots;
    let root = replaced_root(before, roots);
    let skipped = match replacement {
        Some(_) => Some(root),
        None => None,
    };
    let rest = roots_but(roots, skipped);
    let first = match replacement {
        Some(_) => seq![root],
        None => Seq::<u64>::empty(),
    };
    let all = first + rest;
    lemma_closing_is_apart(before, after, said, removed, content, replacement, step);
    reveal(roots_closed);
    lemma_sound_forest(before);
    lemma_closed_in_turn(
        views,
        step.start,
        step.end,
        step.closing,
        step.closed,
        first,
        rest,
        step.steps,
    );
    assert(under_any(views, all, view) <==> goes_with(before, content, view)) by {
        if under_any(views, all, view) {
            let i = choose|i: int| 0 <= i < all.len() && under(views, view, #[trigger] all[i]);
            lemma_target_is_there(before, content, all[i]);
            law_subtree_is_what_is_under(views, all[i], view);
            assert(is_removal_root(before, content, all[i]));
        }
        if goes_with(before, content, view) {
            let owner = choose|owner: u64| #[trigger]
                is_removal_root(before, content, owner) && subtree(views, owner) is Ok && subtree(
                    views,
                    owner,
                )->Ok_0.contains(view);
            lemma_target_is_there(before, content, owner);
            law_subtree_is_what_is_under(views, owner, view);
            assert(roots.contains(owner));
            lemma_roots_but(roots, skipped, owner);
            if Some(owner) == skipped {
                assert(all[0] == owner);
            } else {
                let k = choose|k: int| 0 <= k < rest.len() && rest[k] == owner;
                assert(all[first.len() + k] == owner);
            }
        }
    }
    assert(after.views == step.end.views);
}

/// What the replacement at the start does to the views.
proof fn lemma_replacement_effect(
    before: WorkspaceModel,
    model: ViewModel,
    step: ReplaceStep,
)
    requires
        views_ready(before),
        step_starts(before, Some(model), step),
    ensures
        forall|view: u64| #[trigger]
            before.views.contains_key(view) ==> (step.start.views.contains_key(view)
                <==> !whole_of(before, replaced_root(before, step.roots)).contains(view)) && (
            step.start.views.contains_key(view) ==> step.start.views[view].parent
                == before.views[view].parent),
{
    assert forall|view: u64| #[trigger] before.views.contains_key(view) implies (
    step.start.views.contains_key(view) <==> !whole_of(
        before,
        replaced_root(before, step.roots),
    ).contains(view)) && (
    step.start.views.contains_key(view) ==> step.start.views[view].parent
        == before.views[view].parent) by {
        law_replacement_removes_its_part(
            before,
            step.replaced,
            step.said,
            replaced_root(before, step.roots),
            step.target,
            model,
            true,
            step.spaces,
            step.scene,
            view,
        );
    }
}

proof fn lemma_replaced_root_is_one(workspace: WorkspaceModel, roots: Seq<u64>, i: int)
    requires
        0 <= i,
        roots.len() > 0,
    ensures
        first_with_focus(workspace, roots, i) matches Some(root)
            ==> roots.contains(root),
        i == 0 ==> roots.contains(replaced_root(workspace, roots)),
    decreases roots.len() - i,
{
    assert(roots.contains(roots[0]));
    if i < roots.len() {
        assert(roots.contains(roots[i]));
        lemma_replaced_root_is_one(workspace, roots, i + 1);
    }
}

/// Going up from a view that goes with a content ends at one that is part of none that does.
proof fn lemma_topmost_target(
    workspace: WorkspaceModel,
    content: ContentId,
    view: u64,
    target: u64,
    steps: nat,
)
    requires
        is_forest(workspace.views),
        is_target(workspace, content, target),
        under(workspace.views, view, target),
        rooted_within(workspace.views, target, steps),
    ensures
        exists|root: u64| #[trigger]
            is_removal_root(workspace, content, root) && under(workspace.views, view, root),
    decreases steps,
{
    let views = workspace.views;
    let targets = targets_of(workspace, content);
    if is_removal_root(workspace, content, target) {
    } else {
        lemma_covered_has_owner(views, targets, target, views.dom().len(), steps);
        let (owner, fewer) = choose|owner: u64, fewer: nat|
            #![trigger rooted_within(views, owner, fewer)]
            targets.contains(owner) && under(views, target, owner) && rooted_within(
                views,
                owner,
                fewer,
            ) && fewer < steps;
        lemma_under_chain(views, view, target, owner);
        lemma_topmost_target(workspace, content, view, owner, fewer);
    }
}

proof fn lemma_covered_has_owner(
    views: Map<u64, ViewModel>,
    targets: Set<u64>,
    view: u64,
    within: nat,
    steps: nat,
)
    requires
        covered_within(views, targets, view, within),
        rooted_within(views, view, steps),
    ensures
        exists|owner: u64, fewer: nat|
            #![trigger rooted_within(views, owner, fewer)]
            targets.contains(owner) && under(views, view, owner) && rooted_within(
                views,
                owner,
                fewer,
            ) && fewer < steps,
    decreases within,
{
    if let Some(parent) = views[view].parent {
        let fewer = (steps - 1) as nat;
        assert(rooted_within(views, parent.0, fewer));
        if targets.contains(parent.0) {
            assert(under_within(views, parent.0, parent.0, 1));
            lemma_under_parent(views, view, parent.0, parent.0);
        } else {
            lemma_covered_has_owner(views, targets, parent.0, (within - 1) as nat, fewer);
            let (owner, least) = choose|owner: u64, least: nat|
                #![trigger rooted_within(views, owner, least)]
                targets.contains(owner) && under(views, parent.0, owner) && rooted_within(
                    views,
                    owner,
                    least,
                ) && least < fewer;
            lemma_under_parent(views, view, parent.0, owner);
            assert(rooted_within(views, owner, least));
        }
    }
}

proof fn lemma_under_chain(views: Map<u64, ViewModel>, view: u64, middle: u64, root: u64)
    requires
        under(views, view, middle),
        under(views, middle, root),
    ensures
        under(views, view, root),
{
    let steps = choose|steps: nat| #[trigger] under_within(views, view, middle, steps);
    lemma_under_chain_within(views, view, middle, root, steps);
}

proof fn lemma_under_chain_within(
    views: Map<u64, ViewModel>,
    view: u64,
    middle: u64,
    root: u64,
    steps: nat,
)
    requires
        under_within(views, view, middle, steps),
        under(views, middle, root),
    ensures
        under(views, view, root),
    decreases steps,
{
    if view != middle {
        if let Some(parent) = views[view].parent {
            lemma_under_chain_within(views, parent.0, middle, root, (steps - 1) as nat);
            lemma_under_parent(views, view, parent.0, root);
        }
    }
}

proof fn lemma_switch_target_is_above(views: Map<u64, ViewModel>, view: u64, steps: nat)
    ensures
        switchable_above(views, view, steps) matches Some(target) ==> under_within(
            views,
            view,
            target,
            steps,
        ),
    decreases steps,
{
    if steps > 0 && views.contains_key(view) && !views[view].switchable {
        if let Some(parent) = views[view].parent {
            lemma_switch_target_is_above(views, parent.0, (steps - 1) as nat);
        }
    }
}

/// Once a content is closed, none of the views that were there is about it any more.
pub proof fn law_no_view_on_a_closed_content(
    before: WorkspaceModel,
    after: WorkspaceModel,
    said: Seq<Exchange>,
    removed: Seq<(u64, ViewModel)>,
    content: ContentId,
    replacement: Option<ViewModel>,
    step: ReplaceStep,
    view: u64,
)
    requires
        views_ready(before),
        workspace_sound(before),
        content_closed(before, after, said, removed, content, replacement, step),
        has_removal_root(before, content),
        forall|id: u64| !#[trigger] without_owner(before, content, id),
        before.views.contains_key(view),
        document_of(before.views[view]) == Some(content),
    ensures
        !after.views.contains_key(view),
{
    let views = before.views;
    lemma_sound_forest(before);
    assert(!without_owner(before, content, view));
    let target = switch_target(views, view)->0;
    lemma_switch_target_is_above(views, view, views.dom().len());
    assert(is_target(before, content, target));
    assert(under(views, view, target));
    lemma_target_is_there(before, content, target);
    assert(rooted(views, target));
    lemma_topmost_target(before, content, view, target, views.dom().len());
    let root = choose|root: u64| #[trigger]
        is_removal_root(before, content, root) && under(views, view, root);
    lemma_target_is_there(before, content, root);
    law_subtree_is_what_is_under(views, root, view);
    assert(goes_with(before, content, view));
    law_content_close_takes_what_goes(
        before,
        after,
        said,
        removed,
        content,
        replacement,
        step,
        view,
    );
}

/// Once a content is closed, exactly the views that go with it are gone and told to be removed,
/// and no view is about the content but the one that came in their place.
pub proof fn law_content_close_is_whole(
    before: WorkspaceModel,
    after: WorkspaceModel,
    said: Seq<Exchange>,
    removed: Seq<(u64, ViewModel)>,
    content: ContentId,
    replacement: Option<ViewModel>,
    step: ReplaceStep,
)
    requires
        views_ready(before),
        workspace_sound(before),
        content_closed(before, after, said, removed, content, replacement, step),
        has_removal_root(before, content),
        forall|id: u64| !#[trigger] without_owner(before, content, id),
    ensures
        replacement is Some ==> after.views.contains_key(before.next_view_id),
        after.scene_revision == (before.scene_revision + 1) as u64,
        forall|view: u64| #[trigger]
            before.views.contains_key(view) ==> (after.views.contains_key(view) <==> !goes_with(
                before,
                content,
                view,
            )),
        forall|view: u64| #[trigger] lists(removed, view) <==> goes_with(before, content, view),
        forall|view: u64| #[trigger]
            after.views.contains_key(view) && document_of(after.views[view]) == Some(content)
                ==> replacement is Some && view == before.next_view_id,
{
    if let Some(model) = replacement {
        law_replacement_stays(before, after, said, removed, content, model, step);
    }
    lemma_sound_forest(before);
    assert forall|view: u64| #[trigger] before.views.contains_key(view) implies (
    after.views.contains_key(view) <==> !goes_with(before, content, view)) by {
        law_content_close_takes_what_goes(
            before,
            after,
            said,
            removed,
            content,
            replacement,
            step,
            view,
        );
    }
    assert forall|view: u64| #[trigger] lists(removed, view) <==> goes_with(
        before,
        content,
        view,
    ) by {
        if before.views.contains_key(view) {
            law_content_close_removes(
                before,
                after,
                said,
                removed,
                content,
                replacement,
                step,
                view,
            );
        } else {
            lemma_goes_with_is_there(before, content, view);
            lemma_removed_was_there(
                before,
                after,
                said,
                removed,
                content,
                replacement,
                step,
                view,
            );
        }
    }
    assert forall|view: u64| #[trigger]
        after.views.contains_key(view) && document_of(after.views[view]) == Some(
            content,
        ) implies replacement is Some && view == before.next_view_id by {
        if before.views.contains_key(view) {
            law_content_close_removes(
                before,
                after,
                said,
                removed,
                content,
                replacement,
                step,
                view,
            );
            law_no_view_on_a_closed_content(
                before,
                after,
                said,
                removed,
                content,
                replacement,
                step,
                view,
            );
        } else {
            lemma_only_the_replacement_is_new(
                before,
                after,
                said,
                removed,
                content,
                replacement,
                step,
                view,
            );
        }
    }
    reveal(roots_closed);
    lemma_revision_stays(
        step.start,
        step.end,
        step.closing,
        step.closed,
        roots_but(
            step.roots,
            match replacement {
                Some(_) => Some(replaced_root(before, step.roots)),
                None => None,
            },
        ),
        step.steps,
    );
}

proof fn lemma_revision_stays(
    before: WorkspaceModel,
    after: WorkspaceModel,
    said: Seq<Exchange>,
    removed: Seq<(u64, ViewModel)>,
    roots: Seq<u64>,
    steps: Seq<CloseStep>,
)
    requires
        closed_in_turn(before, after, said, removed, roots, steps),
    ensures
        after.scene_revision == before.scene_revision,
    decreases roots.len(),
{
    if roots.len() > 0 {
        let step = steps.last();
        lemma_revision_stays(
            before,
            step.middle,
            step.said,
            step.removed,
            roots.drop_last(),
            steps.drop_last(),
        );
    }
}

proof fn lemma_goes_with_is_there(workspace: WorkspaceModel, content: ContentId, view: u64)
    requires
        is_forest(workspace.views),
    ensures
        goes_with(workspace, content, view) ==> workspace.views.contains_key(view),
{
    if goes_with(workspace, content, view) {
        let root = choose|root: u64| #[trigger]
            is_removal_root(workspace, content, root) && subtree(workspace.views, root) is Ok
                && subtree(workspace.views, root)->Ok_0.contains(view);
        lemma_target_is_there(workspace, content, root);
        law_subtree_is_closed(workspace.views, root);
    }
}

/// What closing views in turn takes out was there.
proof fn lemma_closed_was_there(
    before: WorkspaceModel,
    after: WorkspaceModel,
    said: Seq<Exchange>,
    removed: Seq<(u64, ViewModel)>,
    roots: Seq<u64>,
    steps: Seq<CloseStep>,
    view: u64,
)
    requires
        closed_in_turn(before, after, said, removed, roots, steps),
    ensures
        lists(removed, view) ==> before.views.contains_key(view),
    decreases roots.len(),
{
    if roots.len() > 0 {
        let step = steps.last();
        let root = roots.last();
        lemma_closed_was_there(
            before,
            step.middle,
            step.said,
            step.removed,
            roots.drop_last(),
            steps.drop_last(),
            view,
        );
        let part = whole_of(step.middle, root);
        lemma_lists_both(step.removed, listing(step.middle.views, part), view);
        lemma_listing(step.middle.views, part, view);
        if part.contains(view) {
            lemma_sound_forest(step.middle);
            law_forest_has_subtrees(step.middle.views, root);
            law_subtree_is_closed(step.middle.views, root);
            if !before.views.contains_key(view) {
                lemma_closing_adds_nothing(
                    before,
                    step.middle,
                    step.said,
                    step.removed,
                    roots.drop_last(),
                    steps.drop_last(),
                    view,
                );
            }
        }
    } else {
        assert(removed.len() == 0);
    }
}

proof fn lemma_removed_was_there(
    before: WorkspaceModel,
    after: WorkspaceModel,
    said: Seq<Exchange>,
    removed: Seq<(u64, ViewModel)>,
    content: ContentId,
    replacement: Option<ViewModel>,
    step: ReplaceStep,
    view: u64,
)
    requires
        views_ready(before),
        workspace_sound(before),
        content_closed(before, after, said, removed, content, replacement, step),
        has_removal_root(before, content),
        !before.views.contains_key(view),
    ensures
        !lists(removed, view),
{
    reveal(roots_closed);
    lemma_sound_forest(before);
    let root = replaced_root(before, step.roots);
    let skipped = match replacement {
        Some(_) => Some(root),
        None => None,
    };
    let rest = roots_but(step.roots, skipped);
    lemma_lists_both(step.removed, step.closed, view);
    lemma_closed_was_there(
        step.start,
        step.end,
        step.closing,
        step.closed,
        rest,
        step.steps,
        view,
    );
    if replacement is Some {
        let part = whole_of(before, root);
        lemma_listing(before.views, part, view);
        law_forest_has_subtrees(before.views, root);
        law_subtree_is_closed(before.views, root);
        reveal(was_replaced);
        if step.start.views.contains_key(view) {
            assert(step.replaced.views.dom().contains(view));
            assert(view == before.next_view_id);
            law_replacement_stays(
                before,
                after,
                said,
                removed,
                content,
                replacement->0,
                step,
            );
        }
    }
}

/// A view that came with the parent of a closed one is not taken out with the others.
proof fn lemma_new_view_stays(
    before: Map<u64, ViewModel>,
    start: WorkspaceModel,
    after: WorkspaceModel,
    said: Seq<Exchange>,
    removed: Seq<(u64, ViewModel)>,
    root: u64,
    roots: Seq<u64>,
    steps: Seq<CloseStep>,
    new: u64,
)
    requires
        is_forest(before),
        partly_closed(before, start.views, seq![root]),
        apart(before, seq![root] + roots),
        closed_in_turn(start, after, said, removed, roots, steps),
        !before.contains_key(new),
        start.views.contains_key(new),
        start.views[new].parent == before[root].parent,
    ensures
        after.views.contains_key(new),
        after.views[new].parent == before[root].parent,
        !lists(removed, new),
    decreases roots.len(),
{
    if roots.len() == 0 {
        assert(removed.len() == 0);
    } else {
        let step = steps.last();
        let rest = roots.drop_last();
        let last = roots.last();
        let first = seq![root];
        let all = first + roots;
        let fewer = first + rest;
        assert(apart(before, fewer)) by {
            assert forall|i: int| 0 <= i < fewer.len() implies before.contains_key(
                #[trigger] fewer[i],
            ) by {
                assert(all[i] == fewer[i]);
            }
            assert forall|i: int, j: int|
                0 <= i < fewer.len() && 0 <= j < fewer.len() && i != j implies !under(
                before,
                #[trigger] fewer[i],
                #[trigger] fewer[j],
            ) by {
                assert(all[i] == fewer[i]);
                assert(all[j] == fewer[j]);
            }
        }
        lemma_new_view_stays(
            before,
            start,
            step.middle,
            step.said,
            step.removed,
            root,
            rest,
            steps.drop_last(),
            new,
        );
        lemma_closed_in_turn(
            before,
            start,
            step.middle,
            step.said,
            step.removed,
            first,
            rest,
            steps.drop_last(),
        );
        lemma_sound_forest(step.middle);
        let middle = step.middle.views;
        assert(all[0] == root);
        assert(all[all.len() - 1] == last);
        assert(before.contains_key(root));
        assert(before.contains_key(last));
        if under(middle, new, last) {
            let count = choose|count: nat| #[trigger] under_within(middle, new, last, count);
            assert(new != last);
            if let Some(parent) = middle[new].parent {
                lemma_parent_is_there(before, root, parent);
                lemma_under_before(
                    before,
                    middle,
                    fewer,
                    parent.0,
                    last,
                    (count - 1) as nat,
                );
                lemma_under_parent(before, root, parent.0, last);
                assert(under(before, all[0], all[all.len() - 1]));
            }
        }
        law_subtree_is_what_is_under(middle, last, new);
        lemma_step_effect(step, after, said, removed, last);
        let part = whole_of(step.middle, last);
        lemma_lists_both(step.removed, listing(middle, part), new);
        lemma_listing(middle, part, new);
    }
}

proof fn lemma_not_its_own_parent(views: Map<u64, ViewModel>, view: u64, steps: nat)
    requires
        rooted_within(views, view, steps),
    ensures
        views[view].parent != Some(ViewId(view)),
    decreases steps,
{
    if views[view].parent == Some(ViewId(view)) {
        lemma_not_its_own_parent(views, view, (steps - 1) as nat);
    }
}

/// A view that comes in the place of another has the parent that the other one had.
proof fn lemma_new_parent(before: WorkspaceModel, replacement: ViewModel, step: ReplaceStep)
    requires
        views_ready(before),
        is_forest(before.views),
        is_forest(step.replaced.views),
        step_starts(before, Some(replacement), step),
    ensures
        step.start.views[before.next_view_id].parent
            == before.views[replaced_root(before, step.roots)].parent,
{
    let new = before.next_view_id;
    let root = replaced_root(before, step.roots);
    reveal(was_replaced);
    assert(step.replaced.views.dom().contains(new));
    assert(!before.views.contains_key(new));
    if before.views[root].parent is None {
        if let Some(parent) = step.replaced.views[new].parent {
            assert(family_agrees(step.replaced.views, new));
            assert(rooted(step.replaced.views, new));
            lemma_not_its_own_parent(step.replaced.views, new, step.replaced.views.dom().len());
            assert(step.replaced.views.dom().contains(parent.0));
            assert(before.views.dom().contains(parent.0));
            let children = step.replaced.views[parent.0].children;
            assert(children == before.views[parent.0].children);
            let k = choose|k: int| 0 <= k < children.len() && children[k] == ViewId(new);
            assert(family_agrees(before.views, parent.0));
            assert(is_child_of(before.views, children[k], parent.0));
        }
    }
}

/// The view that comes in the place of those on a closed content is there in the end.
#[verifier::rlimit(40)]
pub proof fn law_replacement_stays(
    before: WorkspaceModel,
    after: WorkspaceModel,
    said: Seq<Exchange>,
    removed: Seq<(u64, ViewModel)>,
    content: ContentId,
    replacement: ViewModel,
    step: ReplaceStep,
)
    requires
        views_ready(before),
        workspace_sound(before),
        content_closed(before, after, said, removed, content, Some(replacement), step),
        has_removal_root(before, content),
    ensures
        after.views.contains_key(before.next_view_id),
        !lists(removed, before.next_view_id),
{
    let new = before.next_view_id;
    let root = replaced_root(before, step.roots);
    let rest = roots_but(step.roots, Some(root));
    lemma_closing_is_apart(before, after, said, removed, content, Some(replacement), step);
    reveal(roots_closed);
    reveal(was_replaced);
    assert(step.replaced.views.dom().contains(new));
    assert(!before.views.contains_key(new));
    lemma_sound_forest(before);
    lemma_sound_forest(step.replaced);
    lemma_new_parent(before, replacement, step);
    lemma_new_view_stays(
        before.views,
        step.start,
        step.end,
        step.closing,
        step.closed,
        root,
        rest,
        step.steps,
        new,
    );
    let part = whole_of(before, root);
    law_forest_has_subtrees(before.views, root);
    law_subtree_is_closed(before.views, root);
    lemma_listing(before.views, part, new);
    lemma_lists_both(step.removed, step.closed, new);
}

proof fn lemma_only_the_replacement_is_new(
    before: WorkspaceModel,
    after: WorkspaceModel,
    said: Seq<Exchange>,
    removed: Seq<(u64, ViewModel)>,
    content: ContentId,
    replacement: Option<ViewModel>,
    step: ReplaceStep,
    view: u64,
)
    requires
        views_ready(before),
        content_closed(before, after, said, removed, content, replacement, step),
        !before.views.contains_key(view),
        after.views.contains_key(view),
    ensures
        replacement is Some && view == before.next_view_id,
{
    reveal(roots_closed);
    let skipped = match replacement {
        Some(_) => Some(replaced_root(before, step.roots)),
        None => None,
    };
    if !step.start.views.contains_key(view) {
        lemma_closing_adds_nothing(
            step.start,
            step.end,
            step.closing,
            step.closed,
            roots_but(step.roots, skipped),
            step.steps,
            view,
        );
    }
    if replacement is Some {
        reveal(was_replaced);
        assert(step.replaced.views.dom().contains(view));
    }
}

/// What goes with a content is what is part of something that is switched in the place of a view
/// whose document it is; a role of another name does not count.
pub proof fn law_content_takes_what_shows_it(
    workspace: WorkspaceModel,
    content: ContentId,
    view: u64,
)
    requires
        views_ready(workspace),
        workspace_sound(workspace),
    ensures
        goes_with(workspace, content, view) <==> exists|shown: u64, target: u64|
            #![trigger switch_target(workspace.views, shown), under(workspace.views, view, target)]
            {
                &&& workspace.views.contains_key(shown)
                &&& content_of(workspace.views[shown].bindings, "document"@) == Some(content)
                &&& switch_target(workspace.views, shown) == Some(target)
                &&& under(workspace.views, view, target)
            },
{
    let views = workspace.views;
    lemma_sound_forest(workspace);
    if goes_with(workspace, content, view) {
        let root = choose|root: u64| #[trigger]
            is_removal_root(workspace, content, root) && subtree(views, root) is Ok && subtree(
                views,
                root,
            )->Ok_0.contains(view);
        lemma_target_is_there(workspace, content, root);
        law_subtree_is_what_is_under(views, root, view);
        let shown = choose|shown: u64| #[trigger]
            views.contains_key(shown) && document_of(views[shown]) == Some(content)
                && switch_target(views, shown) == Some(root);
        assert(switch_target(views, shown) == Some(root));
        assert(under(views, view, root));
    }
    if exists|shown: u64, target: u64|
        #![trigger switch_target(views, shown), under(views, view, target)]
        {
            &&& views.contains_key(shown)
            &&& content_of(views[shown].bindings, "document"@) == Some(content)
            &&& switch_target(views, shown) == Some(target)
            &&& under(views, view, target)
        } {
        let (shown, target) = choose|shown: u64, target: u64|
            #![trigger switch_target(views, shown), under(views, view, target)]
            {
                &&& views.contains_key(shown)
                &&& content_of(views[shown].bindings, "document"@) == Some(content)
                &&& switch_target(views, shown) == Some(target)
                &&& under(views, view, target)
            };
        assert(document_of(views[shown]) == Some(content));
        assert(is_target(workspace, content, target));
        lemma_target_is_there(workspace, content, target);
        assert(rooted(views, target));
        lemma_topmost_target(workspace, content, view, target, views.dom().len());
        let root = choose|root: u64| #[trigger]
            is_removal_root(workspace, content, root) && under(views, view, root);
        lemma_target_is_there(workspace, content, root);
        law_subtree_is_what_is_under(views, root, view);
        assert(goes_with(workspace, content, view));
    }
}

} // verus!
