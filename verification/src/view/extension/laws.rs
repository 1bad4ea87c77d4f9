//! What holds of panes of extensions over time.

use crate::view::extension::definition::ExtensionModel;
use crate::view::extension::presentation::LinesModel;
use crate::view::extension::store::{
    all_visits, goes_with_owner, is_visited, kept_for, needs_lines, panes_without_owner,
    shown_panes, visited_panes, visited_requests, was_refreshed, without_owner, PanesModel,
    ShownPane, Surroundings, Visit,
};
use crate::view::extension::table::PaneKeyModel;
use vstd::prelude::*;

verus! {

/// A pane that failed stays so, and goes on showing what it shows, for as long as it is shown.
pub proof fn law_failed_panes_stay_failed(
    definitions: Seq<ExtensionModel>,
    before: PanesModel,
    after: PanesModel,
    shown: Seq<ShownPane>,
    around: Surroundings,
    ids: Seq<u64>,
    outcomes: Seq<Result<LinesModel, Seq<char>>>,
    key: PaneKeyModel,
)
    requires
        was_refreshed(definitions, before, after, shown, around, ids, outcomes),
        before.faulted.contains(key),
        is_visited(all_visits(definitions, around.views, ids), key),
    ensures
        after.faulted.contains(key),
        after.cache.contains_key(key) == before.cache.contains_key(key),
        before.cache.contains_key(key) ==> after.cache[key] == before.cache[key],
        ({
            let visits = all_visits(definitions, around.views, ids);
            let asked = visited_requests(before, visits, outcomes, around);
            forall|i: int| 0 <= i < asked.len() ==> (#[trigger] asked[i]).key != key
        }),
{
    let visits = all_visits(definitions, around.views, ids);
    lemma_failed_stays(before, visits, outcomes, around, key);
}

proof fn lemma_failed_stays(
    before: PanesModel,
    visits: Seq<Visit>,
    outcomes: Seq<Result<LinesModel, Seq<char>>>,
    around: Surroundings,
    key: PaneKeyModel,
)
    requires
        before.faulted.contains(key),
        outcomes.len() == visits.len(),
    ensures
        ({
            let panes = visited_panes(before, visits, outcomes, around);
            let asked = visited_requests(before, visits, outcomes, around);
            &&& panes.faulted.contains(key)
            &&& panes.cache.contains_key(key) == before.cache.contains_key(key)
            &&& before.cache.contains_key(key) ==> panes.cache[key] == before.cache[key]
            &&& forall|i: int| 0 <= i < asked.len() ==> (#[trigger] asked[i]).key != key
        }),
    decreases visits.len(),
{
    if visits.len() > 0 {
        lemma_failed_stays(before, visits.drop_last(), outcomes.drop_last(), around, key);
    }
}

/// Every pane that is shown after a refresh has failed, or is about the view and its document as
/// they are; and nothing is kept of panes that are not shown.
pub proof fn law_refreshed_panes_are_current(
    definitions: Seq<ExtensionModel>,
    before: PanesModel,
    after: PanesModel,
    shown: Seq<ShownPane>,
    around: Surroundings,
    ids: Seq<u64>,
    outcomes: Seq<Result<LinesModel, Seq<char>>>,
    key: PaneKeyModel,
)
    requires
        was_refreshed(definitions, before, after, shown, around, ids, outcomes),
    ensures
        is_visited(all_visits(definitions, around.views, ids), key) ==> !needs_lines(
            after,
            key,
            around,
        ),
        !is_visited(all_visits(definitions, around.views, ids), key) ==> !after.cache.contains_key(
            key,
        ) && !after.faulted.contains(key),
{
    let visits = all_visits(definitions, around.views, ids);
    if is_visited(visits, key) {
        lemma_visited_is_settled(before, visits, outcomes, around, key);
    }
}

proof fn lemma_visited_is_settled(
    before: PanesModel,
    visits: Seq<Visit>,
    outcomes: Seq<Result<LinesModel, Seq<char>>>,
    around: Surroundings,
    key: PaneKeyModel,
)
    requires
        is_visited(visits, key),
        outcomes.len() == visits.len(),
    ensures
        !needs_lines(visited_panes(before, visits, outcomes, around), key, around),
    decreases visits.len(),
{
    let rest = visits.drop_last();
    let i = choose|i: int| 0 <= i < visits.len() && (#[trigger] visits[i]).key == key;
    if i < rest.len() {
        assert(rest[i].key == key);
        lemma_visited_is_settled(before, rest, outcomes.drop_last(), around, key);
    }
}

/// Where nothing has changed since a refresh, another one asks extensions for nothing, changes
/// nothing, and shows the same panes.
pub proof fn law_second_refresh_is_quiet(
    definitions: Seq<ExtensionModel>,
    before: PanesModel,
    after: PanesModel,
    shown: Seq<ShownPane>,
    around: Surroundings,
    ids: Seq<u64>,
    outcomes: Seq<Result<LinesModel, Seq<char>>>,
    again: PanesModel,
    shown_again: Seq<ShownPane>,
    outcomes_again: Seq<Result<LinesModel, Seq<char>>>,
)
    requires
        was_refreshed(definitions, before, after, shown, around, ids, outcomes),
        was_refreshed(
            definitions,
            after,
            again,
            shown_again,
            around,
            ids,
            outcomes_again,
        ),
    ensures
        visited_requests(
            after,
            all_visits(definitions, around.views, ids),
            outcomes_again,
            around,
        ).len() == 0,
        again == after,
        shown_again == shown,
{
    let visits = all_visits(definitions, around.views, ids);
    assert forall|i: int| 0 <= i < visits.len() implies !needs_lines(
        after,
        (#[trigger] visits[i]).key,
        around,
    ) by {
        law_refreshed_panes_are_current(
            definitions,
            before,
            after,
            shown,
            around,
            ids,
            outcomes,
            visits[i].key,
        );
        assert(is_visited(visits, visits[i].key));
    }
    lemma_quiet(after, visits, outcomes_again, around);
    assert(kept_for(after, visits) =~= after);
    let panes = visited_panes(before, visits, outcomes, around);
    lemma_same_shown(visits, visits, panes);
}

proof fn lemma_same_shown(all: Seq<Visit>, visits: Seq<Visit>, panes: PanesModel)
    requires
        visits.is_prefix_of(all),
    ensures
        shown_panes(visits, kept_for(panes, all).cache) == shown_panes(visits, panes.cache),
    decreases visits.len(),
{
    if visits.len() > 0 {
        lemma_same_shown(all, visits.drop_last(), panes);
        assert(all[visits.len() - 1] == visits.last());
        assert(is_visited(all, visits.last().key));
    }
}

proof fn lemma_quiet(
    panes: PanesModel,
    visits: Seq<Visit>,
    outcomes: Seq<Result<LinesModel, Seq<char>>>,
    around: Surroundings,
)
    requires
        outcomes.len() == visits.len(),
        forall|i: int|
            0 <= i < visits.len() ==> !needs_lines(panes, (#[trigger] visits[i]).key, around),
    ensures
        visited_panes(panes, visits, outcomes, around) == panes,
        visited_requests(panes, visits, outcomes, around).len() == 0,
    decreases visits.len(),
{
    if visits.len() > 0 {
        let rest = visits.drop_last();
        assert forall|i: int| 0 <= i < rest.len() implies !needs_lines(
            panes,
            (#[trigger] rest[i]).key,
            around,
        ) by {
            assert(rest[i] == visits[i]);
        }
        lemma_quiet(panes, rest, outcomes.drop_last(), around);
        assert(visits[visits.len() - 1] == visits.last());
    }
}

/// Once the extensions of an owner are gone, nothing is kept of their panes, and the other
/// extensions and what is kept of theirs stay.
pub proof fn law_removing_an_owner_keeps_the_others(
    definitions: Seq<ExtensionModel>,
    owner: Seq<char>,
    panes: PanesModel,
    key: PaneKeyModel,
)
    ensures
        panes_without_owner(definitions, owner, panes).cache.contains_key(key) <==> (
        panes.cache.contains_key(key) && !goes_with_owner(definitions, owner, key.extension)),
        forall|i: int|
            0 <= i < without_owner(definitions, owner, definitions).len() ==> (
            #[trigger] without_owner(definitions, owner, definitions)[i]).owner != owner,
        forall|i: int|
            0 <= i < definitions.len() && !goes_with_owner(
                definitions,
                owner,
                (#[trigger] definitions[i]).id,
            ) ==> without_owner(definitions, owner, definitions).contains(definitions[i]),
{
    lemma_without_owner(definitions, owner, definitions);
}

proof fn lemma_without_owner(
    all: Seq<ExtensionModel>,
    owner: Seq<char>,
    definitions: Seq<ExtensionModel>,
)
    requires
        definitions.is_prefix_of(all),
    ensures
        forall|i: int|
            0 <= i < without_owner(all, owner, definitions).len() ==> (#[trigger] without_owner(
                all,
                owner,
                definitions,
            )[i]).owner != owner,
        forall|i: int|
            0 <= i < definitions.len() && !goes_with_owner(
                all,
                owner,
                (#[trigger] definitions[i]).id,
            ) ==> without_owner(all, owner, definitions).contains(definitions[i]),
    decreases definitions.len(),
{
    if definitions.len() > 0 {
        let rest = definitions.drop_last();
        let last = definitions.last();
        lemma_without_owner(all, owner, rest);
        let before = without_owner(all, owner, rest);
        let after = without_owner(all, owner, definitions);
        assert(all[definitions.len() - 1] == last);
        if last.owner == owner {
            assert(goes_with_owner(all, owner, last.id));
        }
        assert forall|i: int|
            0 <= i < definitions.len() && !goes_with_owner(
                all,
                owner,
                (#[trigger] definitions[i]).id,
            ) implies after.contains(definitions[i]) by {
            if i < rest.len() {
                assert(rest[i] == definitions[i]);
                let k = choose|k: int| 0 <= k < before.len() && before[k] == rest[i];
                assert(after[k] == rest[i]);
            } else {
                assert(after[after.len() - 1] == last);
            }
        }
    }
}

} // verus!
