//! What the engine promises across events.

use crate::completion::coherence::{
    candidate_coherent, coherent, countable, law_batch_keeps_coherence, lemma_same_places,
};
use crate::completion::engine::{
    after_events, countable_after, countable_throughout, engine_coherent, engine_step, event_view,
    law_event_keeps_coherence, law_events_keep_coherence, next_session, session_number,
    session_step, trigger_step, EngineModel,
};
use crate::completion::fuzzy::match_positions;
use crate::completion::matcher::{
    candidates_differ, entries, entry_of, filter_of, law_ranking_is_a_permutation, ranked,
    CompletionPreviewProbe, Match,
};
use crate::completion::model::{
    lemma_request_of, lemma_session_id_of, CompletionBatch, CompletionEffect, CompletionEvent,
    CompletionLimits, CompletionRequestSeed, CompletionSnapshot, CompletionSourceKey,
    SelectionMove, SourceKeyModel, SourceRequestKey,
};
use crate::completion::state::{
    accept_step, all_items, all_offers, batch_step, candidate_index, commit_step, counted,
    end_step, ended, faulted, filled, fresh_session, in_order, is_source, item_of, keys_of,
    lemma_candidate_found, lemma_candidate_index, list_after, moved, names_differ, overfull,
    oversized, same_choice, selected_index, shows_session, source_index, Capacities, SessionModel,
    SourceEnd,
};
use crate::protocol::ViewId;
use crate::text::chars_of;
use vstd::prelude::*;

verus! {

/// An event only ever touches the session of its own view.
pub proof fn law_other_views_untouched(
    engine: EngineModel,
    event: CompletionEvent,
    room: Capacities,
    view: u64,
)
    requires
        view != event_view(event).0,
    ensures
        engine_step(engine, event, room).0.sessions.contains_key(view)
            == engine.sessions.contains_key(view),
        engine.sessions.contains_key(view) ==> engine_step(engine, event, room).0.sessions[view]
            == engine.sessions[view],
        engine_step(engine, event, room).0.limits == engine.limits,
{
}

/// What is ignored or rejected changes nothing.
pub proof fn law_refused_events_change_nothing(
    engine: EngineModel,
    event: CompletionEvent,
    room: Capacities,
)
    requires
        engine_step(engine, event, room).1.len() == 1,
        engine_step(engine, event, room).1[0] is Ignored || engine_step(engine, event, room).1[0]
            is Rejected,
    ensures
        engine_step(engine, event, room).0 == engine,
{
    reveal(session_step);
    let view = event_view(event).0;
    if engine.sessions.contains_key(view) {
        assert(engine.sessions.insert(view, engine.sessions[view]) =~= engine.sessions);
    }
}

/// A trigger that is not rejected starts the next request: the session of the view goes on with
/// the next epoch, or a new session starts under a number that no session had before.
pub proof fn law_trigger_starts_the_next_request(
    engine: EngineModel,
    seed: CompletionRequestSeed,
    sources: Seq<CompletionSourceKey>,
    room: Capacities,
)
    requires
        engine_coherent(engine),
        trigger_step(engine, seed, sources, room).0 != engine,
    ensures
        ({
            let view = seed.model().view.0;
            let after = trigger_step(engine, seed, sources, room).0;
            let request = after.sessions[view].request;
            &&& after.sessions.contains_key(view)
            &&& request.model().seed == seed
            &&& if engine.sessions.contains_key(view) {
                &&& request.model().session == engine.sessions[view].request.model().session
                &&& request.model().epoch.0 == engine.sessions[view].request.model().epoch.0 + 1
            } else {
                &&& request.model().session.number() == engine.next_session
                &&& request.model().epoch.0 == 1
                &&& forall|other: u64| #[trigger]
                    engine.sessions.contains_key(other) ==> session_number(engine.sessions[other])
                        < request.model().session.number()
            }
        }),
{
    broadcast use {lemma_request_of, lemma_session_id_of};

}

/// A batch for another request than the one that the session answers changes nothing, whatever
/// it holds.
pub proof fn law_stale_batch_is_ignored(
    engine: EngineModel,
    batch: CompletionBatch,
    room: Capacities,
)
    requires
        engine.sessions.contains_key(batch.key.model().view.0),
        engine.sessions[batch.key.model().view.0].request.task() != batch.key.model().task,
    ensures
        engine_step(engine, CompletionEvent::InstallBatch(batch), room) == (
            engine,
            seq![
                CompletionEffect::Ignored {
                    view: Some(batch.key.model().view),
                    reason: "stale request identity",
                },
            ],
        ),
{
    reveal(session_step);
    let view = batch.key.model().view.0;
    assert(engine.sessions.insert(view, engine.sessions[view]) =~= engine.sessions);
}

/// Once a trigger has started the next request, batches for the request before it are stale.
pub proof fn law_superseded_request_is_stale(
    engine: EngineModel,
    seed: CompletionRequestSeed,
    sources: Seq<CompletionSourceKey>,
    room: Capacities,
)
    requires
        engine_coherent(engine),
        engine.sessions.contains_key(seed.model().view.0),
        trigger_step(engine, seed, sources, room).0 != engine,
    ensures
        trigger_step(engine, seed, sources, room).0.sessions[seed.model().view.0].request.task()
            != engine.sessions[seed.model().view.0].request.task(),
{
    law_trigger_starts_the_next_request(engine, seed, sources, room);
}

/// The batch of source `i` is installed.
pub open spec fn installs(
    session: SessionModel,
    limits: CompletionLimits,
    batch: CompletionBatch,
    room: Capacities,
    i: int,
) -> bool {
    &&& session.request.task() == batch.key.model().task
    &&& source_index(session.sources, batch.key.model().source.name()) == Some(i)
    &&& !session.sources[i].timed_out
    &&& !session.sources[i].final_batch
    &&& !session.sources[i].failed
    &&& in_order(session.sources[i], batch)
    &&& !oversized(batch, limits)
    &&& !overfull(session, limits, i, batch, room)
}

/// A selected candidate stays selected as long as its item is there, also where it is no longer
/// among the best.
pub proof fn law_selection_survives_batches(
    session: SessionModel,
    limits: CompletionLimits,
    batch: CompletionBatch,
    room: Capacities,
    i: int,
)
    requires
        coherent(session, limits),
        limits.visible_items > 0,
        installs(session, limits, batch, room, i),
        session.selected is Some,
        item_of(
            session.sources.update(i, filled(session.sources[i], batch)),
            session.selected->0,
        ) is Some,
    ensures
        batch_step(session, limits, batch, room).session is Some,
        batch_step(session, limits, batch, room).session->0.selected == session.selected,
        candidate_index(
            batch_step(session, limits, batch, room).session->0.matched,
            session.selected->0,
        ) is Some,
{
    let id = session.selected->0;
    let middle = counted(session, i, filled(session.sources[i], batch));
    let limit = limits.visible_items as int;
    lemma_candidate_found(session.matched, id);
    let pinned = session.matched[selected_index(session)->0];
    let list = list_after(middle, limit);
    lemma_candidate_found(list, id);
    let best = crate::completion::matcher::best_matches(
        crate::text::chars_of(middle.request.asked().query),
        crate::completion::state::all_offers(middle.sources),
        limit,
    );
    lemma_candidate_found(best, pinned.id);
    if candidate_index(best, pinned.id) is Some {
        let at = candidate_index(best, pinned.id)->0;
        assert(list[at].id.is(id));
    } else {
        assert(list[list.len() - 1].id.is(id));
    }
}

/// A selected candidate whose item is gone is not replaced by another: nothing is selected and
/// nothing is resolved any more.
pub proof fn law_removed_selection_is_cleared(
    session: SessionModel,
    limits: CompletionLimits,
    batch: CompletionBatch,
    room: Capacities,
    i: int,
)
    requires
        coherent(session, limits),
        countable(batch_step(session, limits, batch, room).session->0),
        installs(session, limits, batch, room, i),
        session.selected is Some,
        item_of(
            session.sources.update(i, filled(session.sources[i], batch)),
            session.selected->0,
        ) is None,
    ensures
        batch_step(session, limits, batch, room).session is Some,
        batch_step(session, limits, batch, room).session->0.selected is None,
        batch_step(session, limits, batch, room).session->0.resolved is None,
{
    let id = session.selected->0;
    law_batch_keeps_coherence(session, limits, batch, room);
    let after = batch_step(session, limits, batch, room).session->0;
    lemma_candidate_found(after.matched, id);
    if let Some(at) = candidate_index(after.matched, id) {
        assert(candidate_coherent(after, after.matched[at]));
    }
}

/// Where nothing was listed before, the first candidate is selected.
pub proof fn law_first_candidate_is_selected(
    session: SessionModel,
    limits: CompletionLimits,
    batch: CompletionBatch,
    room: Capacities,
    i: int,
)
    requires
        coherent(session, limits),
        installs(session, limits, batch, room, i),
        session.matched.len() == 0,
    ensures
        ({
            let after = batch_step(session, limits, batch, room).session->0;
            after.matched.len() > 0 ==> after.selected == Some(after.matched[0].id)
        }),
{
    if let Some(id) = session.selected {
        lemma_candidate_found(session.matched, id);
    }
}

/// A batch that is too large, by itself or for the session, ends its own source and nothing else.
pub proof fn law_faulty_batch_ends_only_its_source(
    session: SessionModel,
    limits: CompletionLimits,
    batch: CompletionBatch,
    room: Capacities,
    i: int,
)
    requires
        session.request.task() == batch.key.model().task,
        source_index(session.sources, batch.key.model().source.name()) == Some(i),
        !session.sources[i].timed_out,
        !session.sources[i].final_batch,
        !session.sources[i].failed,
        in_order(session.sources[i], batch),
        oversized(batch, limits) || overfull(session, limits, i, batch, room),
        0 <= i < session.sources.len(),
    ensures
        ({
            let after = batch_step(session, limits, batch, room).session->0;
            &&& batch_step(session, limits, batch, room).session is Some
            &&& after.sources.len() == session.sources.len()
            &&& after.sources[i].failed && !after.sources[i].pending
            &&& after.sources[i].chunks == session.sources[i].chunks
            &&& forall|j: int|
                0 <= j < session.sources.len() && j != i ==> #[trigger] after.sources[j]
                    == session.sources[j]
            &&& after.matched == session.matched
            &&& after.selected == session.selected
            &&& after.item_count == session.item_count
        }),
{
}

/// Accepting changes nothing by itself, and what it hands out ends the session once it is
/// committed.
pub proof fn law_session_ends_with_the_commit(session: SessionModel, view: ViewId)
    requires
        session.selected is Some,
        item_of(session.sources, session.selected->0) is Some,
    ensures
        accept_step(session, view).session == Some(session),
        accept_step(session, view).effects.len() == 1,
        accept_step(session, view).effects[0] matches CompletionEffect::Accept(acceptance)
            && commit_step(session, view, acceptance.task, acceptance.candidate).session is None,
{
}

/// A coherent session can always hand out its selected candidate.
pub proof fn law_selection_can_be_accepted(
    session: SessionModel,
    limits: CompletionLimits,
    view: ViewId,
)
    requires
        coherent(session, limits),
        session.selected is Some,
    ensures
        accept_step(session, view).effects.len() == 1,
        accept_step(session, view).effects[0] is Accept,
{
    let id = session.selected->0;
    lemma_candidate_found(session.matched, id);
    let at = candidate_index(session.matched, id)->0;
    assert(candidate_coherent(session, session.matched[at]));
}

/// Moving to the next candidate and back selects the same candidate again.
pub proof fn law_moves_cancel_out(session: SessionModel, limits: CompletionLimits)
    requires
        coherent(session, limits),
        session.selected is Some,
    ensures
        selected_index(moved(moved(session, SelectionMove::Next), SelectionMove::Previous))
            == selected_index(session),
        selected_index(moved(moved(session, SelectionMove::Previous), SelectionMove::Next))
            == selected_index(session),
{
    lemma_candidate_found(session.matched, session.selected->0);
    let list = session.matched;
    assert forall|k: int| 0 <= k < list.len() implies candidate_index(
        list,
        (#[trigger] list[k]).id,
    ) == Some(k) by {
        assert forall|j: int| 0 <= j < k implies !(#[trigger] list[j]).id.is(list[k].id) by {
            assert(!list[j].id.is(list[k].id));
        }
        lemma_candidate_index(list, list[k].id, k);
    }
}

/// A session whose candidates differ finds each of them where it stands.
proof fn lemma_found_in_place(list: Seq<Match>, k: int)
    requires
        candidates_differ(list),
        0 <= k < list.len(),
    ensures
        candidate_index(list, list[k].id) == Some(k),
{
    assert forall|j: int| 0 <= j < k implies !(#[trigger] list[j]).id.is(list[k].id) by {
        assert(!list[j].id.is(list[k].id));
    }
    lemma_candidate_index(list, list[k].id, k);
}

/// Where each move leads. Next and Previous go round the list, and start at its ends where nothing
/// is selected; First selects the first candidate and Clear none. The list stays, and what was
/// resolved is dropped.
pub proof fn law_where_moves_lead(session: SessionModel)
    requires
        session.matched.len() > 0,
        candidates_differ(session.matched),
    ensures
        ({
            let n = session.matched.len() as int;
            let list = session.matched;
            &&& selected_index(session) matches Some(i) ==> {
                &&& moved(session, SelectionMove::Next).selected == Some(list[(i + 1) % n].id)
                &&& moved(session, SelectionMove::Previous).selected == Some(
                    list[(i + n - 1) % n].id,
                )
            }
            &&& session.selected is None ==> {
                &&& moved(session, SelectionMove::Next).selected == Some(list[0].id)
                &&& moved(session, SelectionMove::Previous).selected == Some(list[n - 1].id)
            }
            &&& moved(session, SelectionMove::First).selected == Some(list[0].id)
            &&& moved(session, SelectionMove::Clear).selected is None
            &&& forall|movement: SelectionMove|
                (#[trigger] moved(session, movement)).matched == list && moved(
                    session,
                    movement,
                ).resolved is None
        }),
{
    let n = session.matched.len() as int;
    if let Some(i) = selected_index(session) {
        lemma_candidate_found(session.matched, session.selected->0);
        if i + 1 == n {
            vstd::arithmetic::div_mod::lemma_mod_self_0(n);
        } else {
            vstd::arithmetic::div_mod::lemma_small_mod((i + 1) as nat, n as nat);
        }
        if i == 0 {
            vstd::arithmetic::div_mod::lemma_small_mod((n - 1) as nat, n as nat);
        } else {
            vstd::arithmetic::div_mod::lemma_mod_add_multiples_vanish(i - 1, n);
            vstd::arithmetic::div_mod::lemma_small_mod((i - 1) as nat, n as nat);
            assert(i + n - 1 == n + (i - 1));
        }
    }
}

/// The session after `count` moves of one kind.
pub open spec fn moved_times(
    session: SessionModel,
    movement: SelectionMove,
    count: nat,
) -> SessionModel
    decreases count,
{
    if count == 0 {
        session
    } else {
        moved(moved_times(session, movement, (count - 1) as nat), movement)
    }
}

proof fn lemma_next_times(session: SessionModel, count: nat)
    requires
        candidates_differ(session.matched),
        selected_index(session) is Some,
    ensures
        moved_times(session, SelectionMove::Next, count).matched == session.matched,
        selected_index(moved_times(session, SelectionMove::Next, count)) == Some(
            (selected_index(session)->0 + count) % (session.matched.len() as int),
        ),
        count > 0 ==> moved_times(session, SelectionMove::Next, count).selected == Some(
            session.matched[(selected_index(session)->0 + count)
                % (session.matched.len() as int)].id,
        ),
    decreases count,
{
    let start = selected_index(session)->0;
    let n = session.matched.len() as int;
    lemma_candidate_found(session.matched, session.selected->0);
    if count == 0 {
        vstd::arithmetic::div_mod::lemma_small_mod(start as nat, n as nat);
    } else {
        let before = moved_times(session, SelectionMove::Next, (count - 1) as nat);
        lemma_next_times(session, (count - 1) as nat);
        let at = (start + count - 1) % n;
        law_where_moves_lead(before);
        vstd::arithmetic::div_mod::lemma_mod_bound(start + count - 1, n);
        vstd::arithmetic::div_mod::lemma_add_mod_noop_right(1, start + count - 1, n);
        assert(((start + count - 1) % n + 1) % n == (start + count) % n);
        vstd::arithmetic::div_mod::lemma_mod_bound(start + count, n);
        lemma_found_in_place(session.matched, (start + count) % n);
    }
}

/// As many moves to the next candidate as there are candidates select the same one again.
pub proof fn law_next_goes_all_the_way_round(session: SessionModel)
    requires
        candidates_differ(session.matched),
        selected_index(session) is Some,
    ensures
        ({
            let after = moved_times(session, SelectionMove::Next, session.matched.len());
            &&& selected_index(after) == selected_index(session)
            &&& same_choice(after.selected, session.selected->0)
            &&& after.matched == session.matched
        }),
{
    let n = session.matched.len() as int;
    let i = selected_index(session)->0;
    lemma_candidate_found(session.matched, session.selected->0);
    lemma_next_times(session, n as nat);
    vstd::arithmetic::div_mod::lemma_mod_add_multiples_vanish(i, n);
    vstd::arithmetic::div_mod::lemma_small_mod(i as nat, n as nat);
    assert(i + n == n + i);
}

/// The source that a key names has finished: with its last batch, with a fault or out of time.
pub open spec fn finished(engine: EngineModel, key: SourceKeyModel) -> bool {
    let session = engine.sessions[key.view.0];
    &&& engine.sessions.contains_key(key.view.0)
    &&& session.request.task() == key.task
    &&& source_index(session.sources, key.source.name()) matches Some(i) && (
    session.sources[i].timed_out || session.sources[i].failed || session.sources[i].final_batch)
}

/// A source that is told to be done or to have failed has finished.
pub proof fn law_told_source_has_finished(
    engine: EngineModel,
    key: SourceRequestKey,
    event: CompletionEvent,
    room: Capacities,
)
    requires
        engine_coherent(engine),
        engine.sessions.contains_key(key.model().view.0),
        engine.sessions[key.model().view.0].request.task() == key.model().task,
        source_index(
            engine.sessions[key.model().view.0].sources,
            key.model().source.name(),
        ) is Some,
        event == CompletionEvent::SourceCompleted(key) || event == CompletionEvent::SourceFailed(
            key,
        ),
    ensures
        finished(engine_step(engine, event, room).0, key.model()),
{
    reveal(session_step);
    let session = engine.sessions[key.model().view.0];
    let name = key.model().source.name();
    let i = source_index(session.sources, name)->0;
    assert(is_source(session.sources, name, i));
    lemma_same_places(session.sources, i, ended(session.sources[i], SourceEnd::Completed), name);
    lemma_same_places(session.sources, i, ended(session.sources[i], SourceEnd::Failed), name);
}

/// A source that has finished stays so as long as its request is the one that the view answers.
pub proof fn law_finished_source_stays_finished(
    engine: EngineModel,
    key: SourceKeyModel,
    event: CompletionEvent,
    room: Capacities,
)
    requires
        engine_coherent(engine),
        finished(engine, key),
        engine_step(engine, event, room).0.sessions.contains_key(key.view.0),
        engine_step(engine, event, room).0.sessions[key.view.0].request.task() == key.task,
    ensures
        finished(engine_step(engine, event, room).0, key),
{
    reveal(session_step);
    broadcast use {lemma_request_of, lemma_session_id_of};

    let view = event_view(event).0;
    let session = engine.sessions[key.view.0];
    let name = key.source.name();
    let at = source_index(session.sources, name)->0;
    assert(is_source(session.sources, name, at));
    assert(coherent(session, engine.limits));
    if view == key.view.0 {
        match event {
            CompletionEvent::Trigger { request, sources } => {
                if trigger_step(engine, request, sources@, room).0 != engine {
                    law_superseded_request_is_stale(engine, request, sources@, room);
                }
            },
            CompletionEvent::InstallBatch(batch) => {
                let other = batch.key.model().source.name();
                if let Some(i) = source_index(session.sources, other) {
                    assert(is_source(session.sources, other, i));
                    lemma_same_places(session.sources, i, faulted(session.sources[i]), name);
                    lemma_same_places(session.sources, i, filled(session.sources[i], batch), name);
                }
            },
            CompletionEvent::SourceCompleted(other) => {
                lemma_end_keeps_finished(session, name, other.model(), SourceEnd::Completed);
            },
            CompletionEvent::SourceFailed(other) => {
                lemma_end_keeps_finished(session, name, other.model(), SourceEnd::Failed);
            },
            CompletionEvent::SourceTimedOut(other) => {
                lemma_end_keeps_finished(session, name, other.model(), SourceEnd::TimedOut);
            },
            CompletionEvent::InstallResolved { key: other, data } => {
                let source = other.candidate.source.name();
                if let Some(i) = source_index(session.sources, source) {
                    assert(is_source(session.sources, source, i));
                    lemma_same_places(session.sources, i, faulted(session.sources[i]), name);
                }
            },
            _ => {},
        }
    }
}

proof fn lemma_end_keeps_finished(
    session: SessionModel,
    name: Seq<char>,
    key: SourceKeyModel,
    end: SourceEnd,
)
    requires
        names_differ(session.sources),
        source_index(session.sources, name) matches Some(at) && (session.sources[at].timed_out
            || session.sources[at].failed || session.sources[at].final_batch),
    ensures
        ({
            let after = end_step(session, key, end).session->0;
            source_index(after.sources, name) matches Some(at) && (after.sources[at].timed_out
                || after.sources[at].failed || after.sources[at].final_batch)
        }),
{
    let at = source_index(session.sources, name)->0;
    assert(is_source(session.sources, name, at));
    if let Some(i) = source_index(session.sources, key.source.name()) {
        assert(is_source(session.sources, key.source.name(), i));
        lemma_same_places(session.sources, i, ended(session.sources[i], end), name);
    }
}

/// A source that has finished is left as it is, however often it is told to be done or to have
/// failed.
pub proof fn law_finished_source_is_left_alone(
    engine: EngineModel,
    key: SourceRequestKey,
    event: CompletionEvent,
    room: Capacities,
)
    requires
        finished(engine, key.model()),
        event == CompletionEvent::SourceCompleted(key) || event == CompletionEvent::SourceFailed(
            key,
        ),
    ensures
        engine_step(engine, event, room) == (
            engine,
            seq![
                CompletionEffect::Ignored {
                    view: Some(key.model().view),
                    reason: "source already completed",
                },
            ],
        ),
{
    reveal(session_step);
    let view = key.model().view.0;
    assert(engine.sessions.insert(view, engine.sessions[view]) =~= engine.sessions);
}

/// The view answers the request of the key all the way.
pub open spec fn answers_throughout(
    engine: EngineModel,
    events: Seq<(CompletionEvent, Capacities)>,
    key: SourceKeyModel,
) -> bool {
    forall|k: int|
        0 <= k <= events.len() ==> ({
            let after = #[trigger] after_events(engine, events.take(k));
            after.sessions.contains_key(key.view.0) && after.sessions[key.view.0].request.task()
                == key.task
        })
}

proof fn lemma_finished_throughout(
    engine: EngineModel,
    events: Seq<(CompletionEvent, Capacities)>,
    key: SourceKeyModel,
)
    requires
        engine_coherent(engine),
        finished(engine, key),
        countable_throughout(engine, events),
        answers_throughout(engine, events, key),
    ensures
        finished(after_events(engine, events), key),
    decreases events.len(),
{
    if events.len() > 0 {
        let shorter = events.drop_last();
        assert forall|k: int| 0 <= k <= shorter.len() implies ({
            let after = #[trigger] after_events(engine, shorter.take(k));
            after.sessions.contains_key(key.view.0) && after.sessions[key.view.0].request.task()
                == key.task
        }) by {
            assert(shorter.take(k) =~= events.take(k));
            let after = after_events(engine, events.take(k));
        }
        assert forall|k: int| 0 <= k < shorter.len() implies countable_after(
            #[trigger] after_events(engine, shorter.take(k)),
            shorter[k].0,
            shorter[k].1,
        ) by {
            assert(shorter.take(k) =~= events.take(k));
            assert(countable_after(
                after_events(engine, events.take(k)),
                events[k].0,
                events[k].1,
            ));
        }
        lemma_finished_throughout(engine, shorter, key);
        law_events_keep_coherence(engine, shorter);
        let last = after_events(engine, events.take(events.len() as int));
        assert(events.take(events.len() as int) =~= events);
        law_finished_source_stays_finished(
            after_events(engine, shorter),
            key,
            events.last().0,
            events.last().1,
        );
    }
}

/// A source stays as it first finished: once it was told to be done or to have failed, telling it
/// again changes nothing, whatever the engine has taken in between for the same request.
pub proof fn law_source_stays_as_it_first_finished(
    engine: EngineModel,
    key: SourceRequestKey,
    told: (CompletionEvent, Capacities),
    events: Seq<(CompletionEvent, Capacities)>,
    again: (CompletionEvent, Capacities),
)
    requires
        engine_coherent(engine),
        engine.sessions.contains_key(key.model().view.0),
        engine.sessions[key.model().view.0].request.task() == key.model().task,
        source_index(
            engine.sessions[key.model().view.0].sources,
            key.model().source.name(),
        ) is Some,
        told.0 == CompletionEvent::SourceCompleted(key) || told.0
            == CompletionEvent::SourceFailed(key),
        again.0 == CompletionEvent::SourceCompleted(key) || again.0
            == CompletionEvent::SourceFailed(key),
        countable_throughout(engine_step(engine, told.0, told.1).0, events),
        answers_throughout(engine_step(engine, told.0, told.1).0, events, key.model()),
    ensures
        ({
            let last = after_events(engine_step(engine, told.0, told.1).0, events);
            engine_step(last, again.0, again.1) == (
                last,
                seq![
                    CompletionEffect::Ignored {
                        view: Some(key.model().view),
                        reason: "source already completed",
                    },
                ],
            )
        }),
{
    let first = engine_step(engine, told.0, told.1).0;
    law_told_source_has_finished(engine, key, told.0, told.1);
    law_event_keeps_coherence(engine, told.0, told.1);
    lemma_finished_throughout(first, events, key.model());
    law_finished_source_is_left_alone(after_events(first, events), key, again.0, again.1);
}

/// The probe of a request tells of a text what the list tells of an item with that text: where
/// the only source of a request delivers one item, it is listed exactly where the probe takes it.
pub proof fn law_probe_agrees_with_the_list(
    engine: EngineModel,
    batch: CompletionBatch,
    room: Capacities,
    probe: CompletionPreviewProbe,
    snapshot: CompletionSnapshot,
    shown: Capacities,
)
    requires
        engine.limits.nonzero(),
        ({
            let view = batch.key.model().view;
            let session = engine.sessions[view.0];
            let step = engine_step(engine, CompletionEvent::InstallBatch(batch), room);
            &&& engine.sessions.contains_key(view.0)
            &&& session == fresh_session(session.request, keys_of(session.sources))
            &&& session.sources.len() == 1
            &&& probe.asked() == chars_of(session.request.asked().query)
            &&& batch.kind is Replace
            &&& batch.items@.len() == 1
            &&& step.1 == seq![CompletionEffect::ViewChanged(view)]
            &&& shows_session(snapshot, step.0.sessions[view.0], shown)
        }),
    ensures
        match_positions(probe.asked(), filter_of(batch.items@[0])) is Some
            <==> snapshot.candidates@.len() == 1,
{
    reveal(session_step);
    let view = batch.key.model().view;
    let session = engine.sessions[view.0];
    let name = batch.key.model().source.name();
    let effects = batch_step(session, engine.limits, batch, room).effects;
    assert(effects[0] is ViewChanged);
    let i = source_index(session.sources, name)->0;
    assert(is_source(session.sources, name, i));
    let next = filled(session.sources[0], batch);
    let middle = counted(session, 0, next);
    let limit = engine.limits.visible_items as int;
    let offers = all_offers(middle.sources);
    reveal_with_fuel(all_offers, 2);
    reveal_with_fuel(all_items, 2);
    reveal_with_fuel(entries, 2);
    reveal_with_fuel(ranked, 2);
    assert(all_items(seq![batch.items@]) =~= batch.items@);
    assert(middle.sources.drop_last() =~= Seq::empty());
    assert(offers.len() == 1);
    assert(offers.drop_last() =~= Seq::empty());
    assert(offers[0].item == batch.items@[0]);
    let query = chars_of(session.request.asked().query);
    assert(entry_of(query, offers.last()) is Some <==> match_positions(
        query,
        filter_of(batch.items@[0]),
    ) is Some);
    let all = entries(query, offers);
    law_ranking_is_a_permutation(all);
    assert(ranked(all).len() == ranked(all).to_multiset().len()) by {
        broadcast use vstd::seq_lib::group_to_multiset_ensures;

    }
    assert(all.len() == all.to_multiset().len()) by {
        broadcast use vstd::seq_lib::group_to_multiset_ensures;

    }
}

} // verus!
