//! Views as a forest: which view is part of which.

use crate::protocol::ViewId;
use crate::view::instance::ViewModel;
use crate::view::soundness::{family_agrees, is_child_of};
use vstd::prelude::*;
use vstd::view::View as _;

verus! {

/// The nearest view, going up from `view` for at most `steps` views, that can be switched for
/// another one.
pub open spec fn switchable_above(views: Map<u64, ViewModel>, view: u64, steps: nat) -> Option<u64>
    decreases steps,
{
    if steps == 0 || !views.contains_key(view) {
        None
    } else if views[view].switchable {
        Some(view)
    } else {
        match views[view].parent {
            Some(parent) => switchable_above(views, parent.0, (steps - 1) as nat),
            None => None,
        }
    }
}

/// The view that is switched for another one in the place of `view`.
pub open spec fn switch_target(views: Map<u64, ViewModel>, view: u64) -> Option<u64> {
    switchable_above(views, view, views.dom().len())
}

/// Going up from `view` for at most `steps` views leads to one that is part of no other.
pub open spec fn rooted_within(views: Map<u64, ViewModel>, view: u64, steps: nat) -> bool
    decreases steps,
{
    steps > 0 && views.contains_key(view) && match views[view].parent {
        Some(parent) => rooted_within(views, parent.0, (steps - 1) as nat),
        None => true,
    }
}

/// `view` is part of a view that is part of no other, in some number of steps.
pub open spec fn rooted(views: Map<u64, ViewModel>, view: u64) -> bool {
    rooted_within(views, view, views.dom().len())
}

/// Some view above `view`, within `steps` steps, is among `targets`.
pub open spec fn covered_within(
    views: Map<u64, ViewModel>,
    targets: Set<u64>,
    view: u64,
    steps: nat,
) -> bool
    decreases steps,
{
    steps > 0 && views.contains_key(view) && match views[view].parent {
        Some(parent) => targets.contains(parent.0) || covered_within(
            views,
            targets,
            parent.0,
            (steps - 1) as nat,
        ),
        None => false,
    }
}

/// Some view above `view` is among `targets`.
pub open spec fn covered(views: Map<u64, ViewModel>, targets: Set<u64>, view: u64) -> bool {
    covered_within(views, targets, view, views.dom().len())
}

/// Why a subtree cannot be listed.
pub enum SubtreeFault {
    Cycle,
    Missing(u64),
}

/// The numbers of views.
pub open spec fn numbers_of(views: Seq<ViewId>) -> Seq<u64> {
    views.map_values(|view: ViewId| view.0)
}

/// Lists the views on the stack, the last one first, each followed by its children in their
/// order, behind those that were listed before.
pub open spec fn listed(
    views: Map<u64, ViewModel>,
    stack: Seq<u64>,
    seen: Seq<u64>,
    steps: nat,
) -> Result<Seq<u64>, SubtreeFault>
    decreases steps,
{
    if stack.len() == 0 {
        Ok(seen)
    } else if steps == 0 || seen.contains(stack.last()) {
        Err(SubtreeFault::Cycle)
    } else if !views.contains_key(stack.last()) {
        Err(SubtreeFault::Missing(stack.last()))
    } else {
        listed(
            views,
            stack.drop_last() + numbers_of(views[stack.last()].children).reverse(),
            seen.push(stack.last()),
            (steps - 1) as nat,
        )
    }
}

/// A view and everything that is part of it, each view before its children.
pub open spec fn subtree(views: Map<u64, ViewModel>, root: u64) -> Result<
    Seq<u64>,
    SubtreeFault,
> {
    listed(views, seq![root], Seq::empty(), (views.dom().len() + 1) as nat)
}

/// What a list of views keeps while it grows.
spec fn listing(views: Map<u64, ViewModel>, stack: Seq<u64>, seen: Seq<u64>) -> bool {
    &&& seen.no_duplicates()
    &&& forall|i: int| 0 <= i < seen.len() ==> views.contains_key(#[trigger] seen[i])
    &&& forall|i: int, child: ViewId|
        0 <= i < seen.len() && views[#[trigger] seen[i]].children.contains(child)
            ==> seen.contains(child.0) || #[trigger] stack.contains(child.0)
}

proof fn lemma_listing_step(views: Map<u64, ViewModel>, stack: Seq<u64>, seen: Seq<u64>)
    requires
        listing(views, stack, seen),
        stack.len() > 0,
        !seen.contains(stack.last()),
        views.contains_key(stack.last()),
    ensures
        listing(
            views,
            stack.drop_last() + numbers_of(views[stack.last()].children).reverse(),
            seen.push(stack.last()),
        ),
{
    let top = stack.last();
    let below = numbers_of(views[top].children).reverse();
    let next = stack.drop_last() + below;
    let after = seen.push(top);
    assert forall|i: int, child: ViewId|
        0 <= i < after.len() && views[#[trigger] after[i]].children.contains(
            child,
        ) implies after.contains(child.0) || #[trigger] next.contains(child.0) by {
        if i < seen.len() {
            assert(after[i] == seen[i]);
            if seen.contains(child.0) {
                let k = choose|k: int| 0 <= k < seen.len() && seen[k] == child.0;
                assert(after[k] == child.0);
            } else {
                assert(stack.contains(child.0));
                let k = choose|k: int| 0 <= k < stack.len() && stack[k] == child.0;
                if k < stack.len() - 1 {
                    assert(next[k] == child.0);
                } else {
                    assert(after[after.len() - 1] == child.0);
                }
            }
        } else {
            let children = views[top].children;
            let k = choose|k: int| 0 <= k < children.len() && children[k] == child;
            assert(numbers_of(children)[k] == child.0);
            assert(below[children.len() - 1 - k] == child.0);
            assert(next[stack.len() - 1 + children.len() - 1 - k] == child.0);
        }
    }
}

proof fn lemma_listed(views: Map<u64, ViewModel>, stack: Seq<u64>, seen: Seq<u64>, steps: nat)
    requires
        listing(views, stack, seen),
    ensures
        listed(views, stack, seen, steps) matches Ok(list) ==> {
            &&& listing(views, Seq::empty(), list)
            &&& seen.len() <= list.len()
            &&& list.take(seen.len() as int) == seen
            &&& stack.len() > 0 ==> seen.len() < list.len() && list[seen.len() as int]
                == stack.last()
        },
    decreases steps,
{
    if stack.len() == 0 {
        assert(stack =~= Seq::empty());
        assert(seen.take(seen.len() as int) =~= seen);
    } else if steps > 0 && !seen.contains(stack.last()) && views.contains_key(stack.last()) {
        let next = stack.drop_last() + numbers_of(views[stack.last()].children).reverse();
        let after = seen.push(stack.last());
        lemma_listing_step(views, stack, seen);
        lemma_listed(views, next, after, (steps - 1) as nat);
        if let Ok(list) = listed(views, stack, seen, steps) {
            assert(list.take(after.len() as int)[seen.len() as int] == stack.last());
            assert(list.take(seen.len() as int) =~= list.take(after.len() as int).take(
                seen.len() as int,
            ));
            assert(after.take(seen.len() as int) =~= seen);
        }
    }
}

/// A subtree starts with its root, lists each view once, and with a view everything that is part
/// of it.
pub proof fn law_subtree_is_closed(views: Map<u64, ViewModel>, root: u64)
    requires
        subtree(views, root) is Ok,
    ensures
        ({
            let list = subtree(views, root)->Ok_0;
            &&& list.len() > 0
            &&& list[0] == root
            &&& list.no_duplicates()
            &&& forall|i: int| 0 <= i < list.len() ==> views.contains_key(#[trigger] list[i])
            &&& forall|i: int, child: ViewId|
                #![trigger list[i], list.contains(child.0)]
                0 <= i < list.len() && views[list[i]].children.contains(child) ==> list.contains(
                    child.0,
                )
        }),
{
    let stack = seq![root];
    let seen = Seq::<u64>::empty();
    assert(listing(views, stack, seen));
    lemma_listed(views, stack, seen, (views.dom().len() + 1) as nat);
    let list = subtree(views, root)->Ok_0;
    assert forall|i: int, child: ViewId|
        #![trigger list[i], list.contains(child.0)]
        0 <= i < list.len() && views[list[i]].children.contains(child) implies list.contains(
        child.0,
    ) by {
        assert(!Seq::<u64>::empty().contains(child.0));
    }
}

/// What can be switched in the place of a view can be switched, and the view is part of it.
pub proof fn law_switch_target_is_switchable(views: Map<u64, ViewModel>, view: u64, steps: nat)
    ensures
        switchable_above(views, view, steps) matches Some(target) ==> views.contains_key(target)
            && views[target].switchable,
        views.contains_key(view) && views[view].switchable && steps > 0 ==> switchable_above(
            views,
            view,
            steps,
        ) == Some(view),
    decreases steps,
{
    if steps > 0 && views.contains_key(view) && !views[view].switchable {
        if let Some(parent) = views[view].parent {
            law_switch_target_is_switchable(views, parent.0, (steps - 1) as nat);
        }
    }
}

/// How many views are above a view, within that many steps.
spec fn height(views: Map<u64, ViewModel>, view: u64, steps: nat) -> nat
    decreases steps,
{
    if steps == 0 || !views.contains_key(view) {
        0
    } else {
        match views[view].parent {
            Some(parent) => 1 + height(views, parent.0, (steps - 1) as nat),
            None => 0,
        }
    }
}

proof fn lemma_height_settles(views: Map<u64, ViewModel>, view: u64, steps: nat)
    requires
        rooted_within(views, view, steps),
    ensures
        rooted_within(views, view, steps + 1),
        height(views, view, steps) == height(views, view, steps + 1),
    decreases steps,
{
    if let Some(parent) = views[view].parent {
        lemma_height_settles(views, parent.0, (steps - 1) as nat);
    }
}

/// A child is one step further down than its parent.
proof fn lemma_child_is_lower(views: Map<u64, ViewModel>, child: u64, parent: u64)
    requires
        rooted(views, child),
        views[child].parent == Some(ViewId(parent)),
    ensures
        height(views, child, views.dom().len()) == height(views, parent, views.dom().len()) + 1,
{
    let steps = views.dom().len();
    lemma_height_settles(views, parent, (steps - 1) as nat);
}

/// The views agree on who is part of whom, and none is part of itself.
pub open spec fn is_forest(views: Map<u64, ViewModel>) -> bool {
    &&& views.dom().finite()
    &&& forall|id: u64| #[trigger]
        views.contains_key(id) ==> family_agrees(views, id) && rooted(views, id)
}

spec fn parent_of(views: Map<u64, ViewModel>, id: u64) -> u64 {
    match views[id].parent {
        Some(parent) => parent.0,
        None => 0,
    }
}

/// The view is the root, or part of a view that was listed, and further down than the root.
spec fn descends(views: Map<u64, ViewModel>, root: u64, seen: Seq<u64>, id: u64) -> bool {
    let steps = views.dom().len();
    id == root || (views[id].parent is Some && seen.contains(parent_of(views, id)) && height(
        views,
        id,
        steps,
    ) > height(views, root, steps))
}

/// What a list of views of a forest keeps while it grows.
spec fn sprouting(views: Map<u64, ViewModel>, root: u64, stack: Seq<u64>, seen: Seq<u64>) -> bool {
    &&& stack.no_duplicates()
    &&& seen.no_duplicates()
    &&& forall|i: int|
        0 <= i < stack.len() ==> views.contains_key(#[trigger] stack[i]) && !seen.contains(
            stack[i],
        ) && descends(views, root, seen, stack[i])
    &&& forall|i: int|
        0 <= i < seen.len() ==> views.contains_key(#[trigger] seen[i]) && descends(
            views,
            root,
            seen,
            seen[i],
        )
}

proof fn lemma_push_contains(seen: Seq<u64>, top: u64, id: u64)
    ensures
        seen.push(top).contains(id) <==> seen.contains(id) || id == top,
{
    let after = seen.push(top);
    if seen.contains(id) {
        let k = choose|k: int| 0 <= k < seen.len() && seen[k] == id;
        assert(after[k] == id);
    }
    if id == top {
        assert(after[seen.len() as int] == id);
    }
    if after.contains(id) && id != top {
        let k = choose|k: int| 0 <= k < after.len() && after[k] == id;
        assert(seen[k] == id);
    }
}

/// The children of a view on the stack were not met before.
proof fn lemma_children_are_new(
    views: Map<u64, ViewModel>,
    root: u64,
    stack: Seq<u64>,
    seen: Seq<u64>,
    j: int,
)
    requires
        is_forest(views),
        sprouting(views, root, stack, seen),
        stack.len() > 0,
        0 <= j < views[stack.last()].children.len(),
    ensures
        ({
            let child = views[stack.last()].children[j].0;
            &&& views.contains_key(child)
            &&& child != stack.last()
            &&& !seen.contains(child)
            &&& !stack.contains(child)
            &&& descends(views, root, seen.push(stack.last()), child)
        }),
{
    let steps = views.dom().len();
    let top = stack.last();
    let child = views[top].children[j].0;
    assert(stack[stack.len() - 1] == top);
    assert(family_agrees(views, top));
    assert(is_child_of(views, views[top].children[j], top));
    assert(rooted(views, child));
    lemma_child_is_lower(views, child, top);
    assert(descends(views, root, seen, top));
    assert(child != root);
    assert(parent_of(views, child) == top);
    if seen.contains(child) {
        let k = choose|k: int| 0 <= k < seen.len() && seen[k] == child;
        assert(descends(views, root, seen, seen[k]));
    }
    if stack.contains(child) {
        let k = choose|k: int| 0 <= k < stack.len() && stack[k] == child;
        assert(descends(views, root, seen, stack[k]));
    }
    lemma_push_contains(seen, top, top);
}

proof fn lemma_sprouting_step(views: Map<u64, ViewModel>, root: u64, stack: Seq<u64>, seen: Seq<u64>)
    requires
        is_forest(views),
        sprouting(views, root, stack, seen),
        stack.len() > 0,
    ensures
        sprouting(
            views,
            root,
            stack.drop_last() + numbers_of(views[stack.last()].children).reverse(),
            seen.push(stack.last()),
        ),
{
    let top = stack.last();
    let children = views[top].children;
    let numbers = numbers_of(children);
    let below = numbers.reverse();
    let rest = stack.drop_last();
    let next = rest + below;
    let after = seen.push(top);
    assert(stack[stack.len() - 1] == top);
    assert(family_agrees(views, top));
    assert forall|i: int| 0 <= i < next.len() implies views.contains_key(#[trigger] next[i])
        && !after.contains(next[i]) && descends(views, root, after, next[i]) by {
        lemma_push_contains(seen, top, next[i]);
        if i < rest.len() {
            assert(next[i] == stack[i]);
            assert(stack[i] != stack[stack.len() - 1]);
            lemma_push_contains(seen, top, parent_of(views, next[i]));
        } else {
            let j = children.len() - 1 - (i - rest.len());
            assert(next[i] == numbers[j]);
            assert(numbers[j] == children[j].0);
            lemma_children_are_new(views, root, stack, seen, j);
        }
    }
    assert forall|i: int, j: int| 0 <= i < j < next.len() implies next[i] != next[j] by {
        if j < rest.len() {
            assert(stack[i] != stack[j]);
        } else {
            let b = children.len() - 1 - (j - rest.len());
            assert(next[j] == numbers[b]);
            assert(numbers[b] == children[b].0);
            if i < rest.len() {
                assert(stack[i] == next[i]);
                assert(stack.contains(next[i]));
                lemma_children_are_new(views, root, stack, seen, b);
            } else {
                let a = children.len() - 1 - (i - rest.len());
                assert(next[i] == numbers[a]);
                assert(children[a] != children[b]);
            }
        }
    }
    assert forall|i: int, j: int| 0 <= i < j < after.len() implies after[i] != after[j] by {
        if j == seen.len() {
            assert(seen[i] == after[i]);
            assert(seen.contains(after[i]));
        }
    }
    assert forall|i: int| 0 <= i < after.len() implies views.contains_key(#[trigger] after[i])
        && descends(views, root, after, after[i]) by {
        if i < seen.len() {
            assert(after[i] == seen[i]);
        }
        lemma_push_contains(seen, top, parent_of(views, after[i]));
    }
}

/// A list without repetitions of views that are there is no longer than all views.
proof fn lemma_list_within(views: Map<u64, ViewModel>, seen: Seq<u64>)
    requires
        views.dom().finite(),
        seen.no_duplicates(),
        forall|i: int| 0 <= i < seen.len() ==> views.contains_key(#[trigger] seen[i]),
    ensures
        seen.len() <= views.dom().len(),
{
    seen.unique_seq_to_set();
    assert(seen.to_set().subset_of(views.dom()));
    vstd::set_lib::lemma_len_subset(seen.to_set(), views.dom());
}

proof fn lemma_forest_listed(
    views: Map<u64, ViewModel>,
    root: u64,
    stack: Seq<u64>,
    seen: Seq<u64>,
    steps: nat,
)
    requires
        is_forest(views),
        sprouting(views, root, stack, seen),
        steps + seen.len() == views.dom().len() + 1,
    ensures
        listed(views, stack, seen, steps) is Ok,
    decreases steps,
{
    lemma_list_within(views, seen);
    if stack.len() > 0 {
        let top = stack.last();
        assert(stack[stack.len() - 1] == top);
        lemma_sprouting_step(views, root, stack, seen);
        lemma_forest_listed(
            views,
            root,
            stack.drop_last() + numbers_of(views[top].children).reverse(),
            seen.push(top),
            (steps - 1) as nat,
        );
    }
}

/// Going up from `view` for at most `steps` views leads to `root`.
pub open spec fn under_within(views: Map<u64, ViewModel>, view: u64, root: u64, steps: nat) -> bool
    decreases steps,
{
    steps > 0 && views.contains_key(view) && (view == root || match views[view].parent {
        Some(parent) => under_within(views, parent.0, root, (steps - 1) as nat),
        None => false,
    })
}

/// `view` is `root`, or part of it.
pub open spec fn under(views: Map<u64, ViewModel>, view: u64, root: u64) -> bool {
    exists|steps: nat| #[trigger] under_within(views, view, root, steps)
}

/// A view is part of whatever its parent is part of.
pub proof fn lemma_under_parent(views: Map<u64, ViewModel>, view: u64, parent: u64, root: u64)
    requires
        views.contains_key(view),
        views[view].parent == Some(ViewId(parent)),
        under(views, parent, root),
    ensures
        under(views, view, root),
{
    let steps = choose|steps: nat| #[trigger] under_within(views, parent, root, steps);
    assert(under_within(views, view, root, steps + 1));
}

/// A view that is part of another is it, or its parent is part of that.
pub proof fn lemma_under_cases(views: Map<u64, ViewModel>, view: u64, root: u64)
    requires
        under(views, view, root),
    ensures
        views.contains_key(view),
        view == root || (views[view].parent matches Some(parent) && under(views, parent.0, root)),
{
    let steps = choose|steps: nat| #[trigger] under_within(views, view, root, steps);
    if view != root {
        assert(under_within(views, parent_of(views, view), root, (steps - 1) as nat));
    }
}

/// Of two views that a view is part of, one is part of the other.
pub proof fn law_owners_are_nested(views: Map<u64, ViewModel>, view: u64, a: u64, b: u64)
    requires
        under(views, view, a),
        under(views, view, b),
    ensures
        under(views, a, b) || under(views, b, a),
{
    let steps = choose|steps: nat| #[trigger] under_within(views, view, a, steps);
    lemma_owners_are_nested(views, view, a, b, steps);
}

proof fn lemma_owners_are_nested(
    views: Map<u64, ViewModel>,
    view: u64,
    a: u64,
    b: u64,
    steps: nat,
)
    requires
        under_within(views, view, a, steps),
        under(views, view, b),
    ensures
        under(views, a, b) || under(views, b, a),
    decreases steps,
{
    if view != a {
        if view == b {
            assert(under(views, b, a));
        } else {
            lemma_under_cases(views, view, b);
            lemma_owners_are_nested(
                views,
                parent_of(views, view),
                a,
                b,
                (steps - 1) as nat,
            );
        }
    }
}

/// Whatever a view is part of is found on the way up.
pub proof fn lemma_under_is_covered(
    views: Map<u64, ViewModel>,
    targets: Set<u64>,
    view: u64,
    root: u64,
    steps: nat,
)
    requires
        rooted_within(views, view, steps),
        under(views, view, root),
        view != root,
        targets.contains(root),
    ensures
        covered_within(views, targets, view, steps),
    decreases steps,
{
    lemma_under_cases(views, view, root);
    let parent = parent_of(views, view);
    if parent != root {
        lemma_under_is_covered(views, targets, parent, root, (steps - 1) as nat);
    }
}

proof fn lemma_forest_list(
    views: Map<u64, ViewModel>,
    root: u64,
    stack: Seq<u64>,
    seen: Seq<u64>,
    steps: nat,
)
    requires
        is_forest(views),
        sprouting(views, root, stack, seen),
    ensures
        listed(views, stack, seen, steps) matches Ok(list) ==> sprouting(
            views,
            root,
            Seq::empty(),
            list,
        ),
    decreases steps,
{
    if stack.len() == 0 {
        assert(stack =~= Seq::empty());
    } else if steps > 0 {
        let top = stack.last();
        assert(stack[stack.len() - 1] == top);
        lemma_sprouting_step(views, root, stack, seen);
        lemma_forest_list(
            views,
            root,
            stack.drop_last() + numbers_of(views[top].children).reverse(),
            seen.push(top),
            (steps - 1) as nat,
        );
    }
}

/// The subtree of a view lists exactly what is part of it.
pub proof fn law_subtree_is_what_is_under(views: Map<u64, ViewModel>, root: u64, view: u64)
    requires
        is_forest(views),
        views.contains_key(root),
    ensures
        subtree(views, root) is Ok,
        subtree(views, root)->Ok_0.contains(view) <==> under(views, view, root),
{
    law_forest_has_subtrees(views, root);
    law_subtree_is_closed(views, root);
    let list = subtree(views, root)->Ok_0;
    let stack = seq![root];
    assert(sprouting(views, root, stack, Seq::empty()));
    lemma_forest_list(views, root, stack, Seq::empty(), (views.dom().len() + 1) as nat);
    if list.contains(view) {
        lemma_listed_is_under(views, root, list, view, height(views, view, views.dom().len()));
    }
    if under(views, view, root) {
        let steps = choose|steps: nat| #[trigger] under_within(views, view, root, steps);
        lemma_under_is_listed(views, root, list, view, steps);
    }
}

proof fn lemma_listed_is_under(
    views: Map<u64, ViewModel>,
    root: u64,
    list: Seq<u64>,
    view: u64,
    depth: nat,
)
    requires
        is_forest(views),
        sprouting(views, root, Seq::empty(), list),
        list.contains(view),
        views.contains_key(root),
        depth == height(views, view, views.dom().len()),
    ensures
        under(views, view, root),
    decreases depth,
{
    let k = choose|k: int| 0 <= k < list.len() && list[k] == view;
    assert(descends(views, root, list, list[k]));
    if view == root {
        assert(under_within(views, view, root, 1));
    } else {
        let parent = parent_of(views, view);
        assert(rooted(views, view));
        lemma_child_is_lower(views, view, parent);
        lemma_listed_is_under(
            views,
            root,
            list,
            parent,
            height(views, parent, views.dom().len()),
        );
        lemma_under_parent(views, view, parent, root);
    }
}

proof fn lemma_under_is_listed(
    views: Map<u64, ViewModel>,
    root: u64,
    list: Seq<u64>,
    view: u64,
    steps: nat,
)
    requires
        is_forest(views),
        subtree(views, root) == Ok::<Seq<u64>, SubtreeFault>(list),
        under_within(views, view, root, steps),
    ensures
        list.contains(view),
    decreases steps,
{
    law_subtree_is_closed(views, root);
    if view == root {
        assert(list[0] == root);
    } else {
        let parent = parent_of(views, view);
        lemma_under_is_listed(views, root, list, parent, (steps - 1) as nat);
        assert(family_agrees(views, view));
        let k = choose|k: int| 0 <= k < list.len() && list[k] == parent;
        assert(views[list[k]].children.contains(ViewId(view)));
        assert(list.contains(ViewId(view).0));
    }
}

proof fn lemma_under_is_lower(views: Map<u64, ViewModel>, view: u64, root: u64, steps: nat)
    requires
        is_forest(views),
        under_within(views, view, root, steps),
    ensures
        height(views, view, views.dom().len()) >= height(views, root, views.dom().len()),
    decreases steps,
{
    if view != root {
        let parent = parent_of(views, view);
        assert(rooted(views, view));
        lemma_child_is_lower(views, view, parent);
        lemma_under_is_lower(views, parent, root, (steps - 1) as nat);
    }
}

/// In a forest no view is part of one of its own children.
pub proof fn law_parent_is_outside(views: Map<u64, ViewModel>, view: u64, parent: ViewId)
    requires
        is_forest(views),
        views.contains_key(view),
        views[view].parent == Some(parent),
    ensures
        views.contains_key(parent.0),
        !under(views, parent.0, view),
{
    assert(family_agrees(views, view));
    assert(rooted(views, view));
    lemma_child_is_lower(views, view, parent.0);
    if under(views, parent.0, view) {
        let steps = choose|steps: nat| #[trigger] under_within(views, parent.0, view, steps);
        lemma_under_is_lower(views, parent.0, view, steps);
    }
}

/// In a forest every view has a subtree.
pub proof fn law_forest_has_subtrees(views: Map<u64, ViewModel>, root: u64)
    requires
        is_forest(views),
        views.contains_key(root),
    ensures
        subtree(views, root) is Ok,
{
    let stack = seq![root];
    lemma_forest_listed(views, root, stack, Seq::empty(), (views.dom().len() + 1) as nat);
}

} // verus!
