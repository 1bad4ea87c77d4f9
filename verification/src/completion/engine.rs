//! The completion engine: one session per view, driven by events.

use crate::completion::coherence::{
    candidate_coherent, coherent, countable, law_batch_keeps_coherence, law_end_keeps_coherence,
    law_move_keeps_coherence, law_resolution_keeps_coherence, total_count, total_item_bytes,
};
use crate::completion::model::{
    any_longer_than, context_heap_bytes, context_texts, lemma_request_of, lemma_session_id_of,
    some_longer_than, CompletionConfigError, CompletionEffect, CompletionEvent,
    CompletionInteractionState, CompletionLimits, CompletionRequest, CompletionRequestSeed,
    CompletionSessionId, CompletionSnapshot, CompletionSourceKey, RequestEpoch, RequestModel,
    SourceKeyModel, SourceRequestKey,
};
use crate::completion::session::{ignored, rejected, Session, SessionCapacities};
use crate::completion::state::{
    accept_step, all_offers, batch_step, cancel_effects, candidate_index, changed_effects,
    commit_step, end_session,
    end_step, fresh_session, has_room, ignored_effects, item_of, keys_of,
    lemma_candidate_found, move_step, names_differ,
    rejected_effects, resolve_step, resolved_step, shows_session, upper_bound_bytes, Capacities,
    SessionModel, SourceEnd, SourceStatus, Step,
};
use crate::measure::capped;
use crate::protocol::ViewId;
use crate::text::{byte_len, chars_of};
use std::collections::HashMap;
use vstd::prelude::*;
use vstd::std_specs::iter::IteratorSpec;

verus! {

broadcast use vstd::std_specs::hash::group_hash_axioms;

/// Everything that an engine holds: its limits, the session of each view and the number of the
/// next session.
#[verifier::ext_equal]
pub struct EngineModel {
    pub limits: CompletionLimits,
    pub sessions: Map<u64, SessionModel>,
    pub next_session: int,
}

/// The session belongs to the view and has a number that was given out.
pub open spec fn belongs(session: SessionModel, view: u64, next_session: int) -> bool {
    &&& session.request.asked().view.0 == view
    &&& session.request.model().session.number() < next_session
    &&& session.request.model().epoch.0 >= 1
}

/// What holds of every engine between events.
pub open spec fn engine_coherent(engine: EngineModel) -> bool {
    &&& engine.limits.nonzero()
    &&& engine.limits.consistent()
    &&& 1 <= engine.next_session <= u64::MAX
    &&& forall|view: u64| #[trigger]
        engine.sessions.contains_key(view) ==> coherent(engine.sessions[view], engine.limits)
            && belongs(engine.sessions[view], view, engine.next_session)
            && engine.sessions[view].sources.len() <= engine.limits.max_sources
    &&& forall|a: u64, b: u64|
        engine.sessions.contains_key(a) && engine.sessions.contains_key(b) && a != b
            ==> session_number(#[trigger] engine.sessions[a]) != session_number(
            #[trigger] engine.sessions[b],
        )
}

/// The number of a session.
pub open spec fn session_number(session: SessionModel) -> u64 {
    session.request.model().session.number()
}

/// The keys without those whose name stands before.
pub open spec fn first_occurrences(sources: Seq<CompletionSourceKey>) -> Seq<CompletionSourceKey>
    decreases sources.len(),
{
    if sources.len() == 0 {
        Seq::empty()
    } else {
        let before = first_occurrences(sources.drop_last());
        if has_name(before, sources.last().name()) {
            before
        } else {
            before.push(sources.last())
        }
    }
}

/// Some key has that name.
pub open spec fn has_name(sources: Seq<CompletionSourceKey>, name: Seq<char>) -> bool {
    exists|i: int| 0 <= i < sources.len() && (#[trigger] sources[i]).name() == name
}

/// Some name takes more than `limit` bytes.
pub open spec fn some_name_longer_than(sources: Seq<CompletionSourceKey>, limit: usize) -> bool {
    exists|i: int| 0 <= i < sources.len() && byte_len((#[trigger] sources[i]).name()) > limit
}

/// Why a request is refused on sight.
pub open spec fn refusal(
    limits: CompletionLimits,
    seed: CompletionRequestSeed,
    sources: Seq<CompletionSourceKey>,
) -> Option<&'static str> {
    if byte_len(chars_of(seed.model().query)) > limits.max_query_bytes {
        Some("query byte limit exceeded")
    } else if capped(context_heap_bytes(seed.model().context)) > limits.max_context_bytes
        || some_longer_than(context_texts(seed.model().context), limits.max_string_bytes) {
        Some("request context limit exceeded")
    } else if sources.len() > limits.max_sources || some_name_longer_than(
        sources,
        limits.max_source_key_bytes,
    ) {
        Some("source limit exceeded")
    } else {
        None
    }
}

/// Asks every source, in order.
pub open spec fn request_effects(
    request: CompletionRequest,
    sources: Seq<CompletionSourceKey>,
) -> Seq<CompletionEffect> {
    sources.map_values(
        |source: CompletionSourceKey|
            CompletionEffect::RequestSource {
                key: SourceRequestKey::of(
                    SourceKeyModel { view: request.asked().view, task: request.task(), source },
                ),
                request,
            },
    )
}

/// The request that a trigger makes: the next one of the session of its view, or the first one of
/// a new session.
pub open spec fn next_request(
    engine: EngineModel,
    seed: CompletionRequestSeed,
) -> CompletionRequest {
    let view = seed.model().view.0;
    if engine.sessions.contains_key(view) {
        let current = engine.sessions[view].request.model();
        CompletionRequest::of(
            RequestModel {
                session: current.session,
                epoch: RequestEpoch((current.epoch.0 + 1) as u64),
                seed,
            },
        )
    } else {
        CompletionRequest::of(
            RequestModel {
                session: CompletionSessionId::of(engine.next_session as u64),
                epoch: RequestEpoch(1),
                seed,
            },
        )
    }
}

/// The session that a trigger starts.
pub open spec fn next_session(
    engine: EngineModel,
    seed: CompletionRequestSeed,
    sources: Seq<CompletionSourceKey>,
) -> SessionModel {
    fresh_session(next_request(engine, seed), first_occurrences(sources))
}

/// The numbers for the next request have run out.
pub open spec fn exhausted(engine: EngineModel, view: u64) -> Option<&'static str> {
    if engine.sessions.contains_key(view) {
        if engine.sessions[view].request.model().epoch.0 == u64::MAX {
            Some("request epoch exhausted")
        } else {
            None
        }
    } else if engine.next_session == u64::MAX {
        Some("session identity exhausted")
    } else {
        None
    }
}

/// What a trigger does to the engine.
pub open spec fn trigger_step(
    engine: EngineModel,
    seed: CompletionRequestSeed,
    sources: Seq<CompletionSourceKey>,
    room: Capacities,
) -> (EngineModel, Seq<CompletionEffect>) {
    let view = seed.model().view;
    let session = next_session(engine, seed, sources);
    match refusal(engine.limits, seed, sources) {
        Some(reason) => (engine, rejected_effects(view, reason)),
        None => match exhausted(engine, view.0) {
            Some(reason) => (engine, rejected_effects(view, reason)),
            None => if upper_bound_bytes(session, room, 0, engine.limits.visible_items as int)
                > engine.limits.max_session_bytes {
                (engine, rejected_effects(view, "session limit exceeded"))
            } else {
                (
                    EngineModel {
                        sessions: engine.sessions.insert(view.0, session),
                        next_session: if engine.sessions.contains_key(view.0) {
                            engine.next_session
                        } else {
                            engine.next_session + 1
                        },
                        ..engine
                    },
                    (if engine.sessions.contains_key(view.0) {
                        cancel_effects(
                            engine.sessions[view.0].request,
                            engine.sessions[view.0].sources,
                        )
                    } else {
                        Seq::empty()
                    }) + request_effects(session.request, first_occurrences(sources))
                        + changed_effects(view),
                )
            },
        },
    }
}

/// The view that an event is about.
pub open spec fn event_view(event: CompletionEvent) -> ViewId {
    match event {
        CompletionEvent::Trigger { request, sources } => request.model().view,
        CompletionEvent::InstallBatch(batch) => batch.key.model().view,
        CompletionEvent::SourceCompleted(key) => key.model().view,
        CompletionEvent::SourceFailed(key) => key.model().view,
        CompletionEvent::SourceTimedOut(key) => key.model().view,
        CompletionEvent::MoveSelection { view, movement } => view,
        CompletionEvent::ResolveSelected { view } => view,
        CompletionEvent::InstallResolved { key, data } => key.view,
        CompletionEvent::AcceptSelected { view } => view,
        CompletionEvent::AcceptanceCommitted { view, task, candidate } => view,
        CompletionEvent::CancelView { view } => view,
    }
}

/// What an event other than a trigger does to the session of its view.
#[verifier::opaque]
pub open spec fn session_step(
    session: SessionModel,
    limits: CompletionLimits,
    event: CompletionEvent,
    room: Capacities,
) -> Step {
    match event {
        CompletionEvent::InstallBatch(batch) => batch_step(session, limits, batch, room),
        CompletionEvent::SourceCompleted(key) => end_step(
            session,
            key.model(),
            SourceEnd::Completed,
        ),
        CompletionEvent::SourceFailed(key) => end_step(session, key.model(), SourceEnd::Failed),
        CompletionEvent::SourceTimedOut(key) => end_step(session, key.model(), SourceEnd::TimedOut),
        CompletionEvent::MoveSelection { view, movement } => move_step(session, view, movement),
        CompletionEvent::ResolveSelected { view } => resolve_step(session, view),
        CompletionEvent::InstallResolved { key, data } => resolved_step(
            session,
            limits,
            key,
            data,
            room,
        ),
        CompletionEvent::AcceptSelected { view } => accept_step(session, view),
        CompletionEvent::AcceptanceCommitted { view, task, candidate } => commit_step(
            session,
            view,
            task,
            candidate,
        ),
        CompletionEvent::CancelView { view } => end_session(session, view),
        CompletionEvent::Trigger { .. } => Step { session: Some(session), effects: Seq::empty() },
    }
}

/// Why an event is ignored where its view has no session.
pub open spec fn missing_reason(event: CompletionEvent) -> &'static str {
    if event is AcceptanceCommitted {
        "stale acceptance commit"
    } else {
        "missing session"
    }
}

/// What an event does to the engine, given the room of the collections of the session that it is
/// about.
pub open spec fn engine_step(engine: EngineModel, event: CompletionEvent, room: Capacities) -> (
    EngineModel,
    Seq<CompletionEffect>,
) {
    let view = event_view(event);
    match event {
        CompletionEvent::Trigger { request, sources } => trigger_step(
            engine,
            request,
            sources@,
            room,
        ),
        _ => if engine.sessions.contains_key(view.0) {
            let step = session_step(engine.sessions[view.0], engine.limits, event, room);
            (
                EngineModel {
                    sessions: match step.session {
                        Some(session) => engine.sessions.insert(view.0, session),
                        None => engine.sessions.remove(view.0),
                    },
                    ..engine
                },
                step.effects,
            )
        } else {
            (engine, ignored_effects(view, missing_reason(event)))
        },
    }
}

/// The session whose room an event is held against.
pub open spec fn measured(engine: EngineModel, event: CompletionEvent) -> Option<SessionModel> {
    match event {
        CompletionEvent::Trigger { request, sources } => Some(
            next_session(engine, request, sources@),
        ),
        _ => if engine.sessions.contains_key(event_view(event).0) {
            Some(engine.sessions[event_view(event).0])
        } else {
            None
        },
    }
}

/// The collections of that session may have this much room.
pub open spec fn possible_room(
    engine: EngineModel,
    event: CompletionEvent,
    room: Capacities,
) -> bool {
    measured(engine, event) matches Some(session) ==> has_room(session, room)
}

/// The keys without those whose name stands before have names of their own.
proof fn lemma_first_occurrences_differ(
    request: CompletionRequest,
    sources: Seq<CompletionSourceKey>,
)
    ensures
        first_occurrences(sources).len() <= sources.len(),
        names_differ(fresh_session(request, first_occurrences(sources)).sources),
        forall|i: int, j: int|
            0 <= i < j < first_occurrences(sources).len() ==> (#[trigger] first_occurrences(
                sources,
            )[i]).name() != (#[trigger] first_occurrences(sources)[j]).name(),
    decreases sources.len(),
{
    if sources.len() > 0 {
        lemma_first_occurrences_differ(request, sources.drop_last());
    }
}

/// A trigger asks exactly the sources that it names, each once.
pub proof fn law_trigger_asks_every_source_once(sources: Seq<CompletionSourceKey>, name: Seq<char>)
    ensures
        has_name(first_occurrences(sources), name) <==> has_name(sources, name),
        forall|i: int, j: int|
            0 <= i < j < first_occurrences(sources).len() ==> (#[trigger] first_occurrences(
                sources,
            )[i]).name() != (#[trigger] first_occurrences(sources)[j]).name(),
    decreases sources.len(),
{
    lemma_first_occurrences_differ(arbitrary(), sources);
    if sources.len() > 0 {
        let shorter = sources.drop_last();
        let before = first_occurrences(shorter);
        let after = first_occurrences(sources);
        law_trigger_asks_every_source_once(shorter, name);
        if has_name(sources, name) {
            let i = choose|i: int| 0 <= i < sources.len() && (#[trigger] sources[i]).name() == name;
            if i < shorter.len() {
                assert(shorter[i].name() == name);
                let j = choose|j: int| 0 <= j < before.len() && (#[trigger] before[j]).name() == name;
                assert(after[j].name() == name);
            } else if !has_name(before, name) {
                assert(after[after.len() - 1].name() == name);
            }
        }
        if has_name(after, name) {
            let i = choose|i: int| 0 <= i < after.len() && (#[trigger] after[i]).name() == name;
            if i < before.len() {
                assert(before[i].name() == name);
                let j = choose|j: int|
                    0 <= j < shorter.len() && (#[trigger] shorter[j]).name() == name;
                assert(sources[j].name() == name);
            } else {
                assert(sources[sources.len() - 1].name() == name);
            }
        }
    }
}

/// A session that has just started is coherent.
proof fn lemma_fresh_session_coherent(
    request: CompletionRequest,
    sources: Seq<CompletionSourceKey>,
    limits: CompletionLimits,
)
    requires
        limits.nonzero(),
        names_differ(fresh_session(request, sources).sources),
    ensures
        coherent(fresh_session(request, sources), limits),
    decreases sources.len(),
{
    let states = fresh_session(request, sources).sources;
    lemma_fresh_totals(states);
}

proof fn lemma_fresh_totals(states: Seq<SourceStatus>)
    requires
        forall|i: int|
            0 <= i < states.len() ==> (#[trigger] states[i]).version is None
                && states[i].item_count == 0 && states[i].item_heap_bytes == 0,
    ensures
        all_offers(states).len() == 0,
        total_count(states) == 0,
        total_item_bytes(states) == 0,
    decreases states.len(),
{
    if states.len() > 0 {
        let shorter = states.drop_last();
        assert forall|i: int| 0 <= i < shorter.len() implies (#[trigger] shorter[i]).version is None
            && shorter[i].item_count == 0 && shorter[i].item_heap_bytes == 0 by {
            assert(shorter[i] == states[i]);
        }
        lemma_fresh_totals(shorter);
    }
}

/// A trigger keeps the engine coherent.
pub proof fn law_trigger_keeps_coherence(
    engine: EngineModel,
    seed: CompletionRequestSeed,
    sources: Seq<CompletionSourceKey>,
    room: Capacities,
)
    requires
        engine_coherent(engine),
    ensures
        engine_coherent(trigger_step(engine, seed, sources, room).0),
{
    broadcast use {lemma_request_of, lemma_session_id_of};

    let view = seed.model().view.0;
    let after = trigger_step(engine, seed, sources, room).0;
    let session = next_session(engine, seed, sources);
    lemma_first_occurrences_differ(session.request, sources);
    lemma_fresh_session_coherent(session.request, first_occurrences(sources), engine.limits);
    if after != engine {
        assert(engine.sessions.contains_key(view) ==> belongs(
            engine.sessions[view],
            view,
            engine.next_session,
        ));
        assert forall|a: u64, b: u64|
            after.sessions.contains_key(a) && after.sessions.contains_key(b) && a
                != b implies session_number(#[trigger] after.sessions[a]) != session_number(
            #[trigger] after.sessions[b],
        ) by {
            assert(a != view ==> engine.sessions.contains_key(a));
            assert(b != view ==> engine.sessions.contains_key(b));
        }
    }
}

/// The items can be counted by a machine number once the event has been taken in.
pub open spec fn countable_after(
    engine: EngineModel,
    event: CompletionEvent,
    room: Capacities,
) -> bool {
    event is InstallBatch && engine.sessions.contains_key(event_view(event).0) ==> countable(
        session_step(
            engine.sessions[event_view(event).0],
            engine.limits,
            event,
            room,
        ).session->0,
    )
}

/// Every event keeps the engine coherent, as long as the items can be counted.
pub proof fn law_event_keeps_coherence(
    engine: EngineModel,
    event: CompletionEvent,
    room: Capacities,
)
    requires
        engine_coherent(engine),
        countable_after(engine, event, room),
    ensures
        engine_coherent(engine_step(engine, event, room).0),
{
    reveal(session_step);
    let view = event_view(event).0;
    let after = engine_step(engine, event, room).0;
    match event {
        CompletionEvent::Trigger { request, sources } => {
            law_trigger_keeps_coherence(engine, request, sources@, room);
        },
        _ => {
            if engine.sessions.contains_key(view) {
                let session = engine.sessions[view];
                match event {
                    CompletionEvent::InstallBatch(batch) => {
                        law_batch_keeps_coherence(session, engine.limits, batch, room);
                    },
                    CompletionEvent::SourceCompleted(key) => {
                        law_end_keeps_coherence(
                            session,
                            engine.limits,
                            key.model(),
                            SourceEnd::Completed,
                        );
                    },
                    CompletionEvent::SourceFailed(key) => {
                        law_end_keeps_coherence(
                            session,
                            engine.limits,
                            key.model(),
                            SourceEnd::Failed,
                        );
                    },
                    CompletionEvent::SourceTimedOut(key) => {
                        law_end_keeps_coherence(
                            session,
                            engine.limits,
                            key.model(),
                            SourceEnd::TimedOut,
                        );
                    },
                    CompletionEvent::MoveSelection { view, movement } => {
                        law_move_keeps_coherence(session, engine.limits, movement);
                    },
                    CompletionEvent::InstallResolved { key, data } => {
                        law_resolution_keeps_coherence(session, engine.limits, key, data, room);
                    },
                    _ => {},
                }
                let step = session_step(session, engine.limits, event, room);
                assert(step.session matches Some(next) ==> next.request == session.request
                    && next.sources.len() == session.sources.len());
                assert forall|a: u64, b: u64|
                    after.sessions.contains_key(a) && after.sessions.contains_key(b) && a
                        != b implies session_number(#[trigger] after.sessions[a])
                    != session_number(#[trigger] after.sessions[b]) by {
                    assert(session_number(engine.sessions[a]) != session_number(
                        engine.sessions[b],
                    ));
                }
            }
        },
    }
}

/// What holds of every snapshot of a view: it keeps within the limits, no source and no candidate
/// is there twice, the selected candidate is among the candidates, only it is resolved, and the
/// request is one of the view.
pub open spec fn bounded(
    snapshot: CompletionSnapshot,
    limits: CompletionLimits,
    view: ViewId,
) -> bool {
    &&& snapshot.candidates@.len() <= limits.visible_items
    &&& snapshot.item_count <= limits.max_session_items
    &&& snapshot.source_count == snapshot.sources@.len()
    &&& snapshot.source_count <= limits.max_sources
    &&& forall|i: int, j: int|
        0 <= i < j < snapshot.sources@.len() ==> (#[trigger] snapshot.sources@[i]).name() != (
        #[trigger] snapshot.sources@[j]).name()
    &&& forall|i: int, j: int|
        0 <= i < j < snapshot.candidates@.len() ==> !(#[trigger] snapshot.candidates@[i]).id.is(
            (#[trigger] snapshot.candidates@[j]).id,
        )
    &&& snapshot.selected matches Some(id) ==> exists|i: int|
        0 <= i < snapshot.candidates@.len() && (#[trigger] snapshot.candidates@[i]).id.is(id)
    &&& snapshot.resolved matches Some((id, _)) ==> snapshot.selected is Some
        && snapshot.selected->0.is(id)
    &&& snapshot.request.asked().view == view
}

/// The snapshot of a session of a coherent engine is bounded.
pub proof fn law_snapshot_is_bounded(
    engine: EngineModel,
    view: ViewId,
    snapshot: CompletionSnapshot,
    room: Capacities,
)
    requires
        engine_coherent(engine),
        engine.sessions.contains_key(view.0),
        shows_session(snapshot, engine.sessions[view.0], room),
    ensures
        bounded(snapshot, engine.limits, view),
{
    let session = engine.sessions[view.0];
    let candidates = snapshot.candidates@;
    assert(coherent(session, engine.limits));
    assert forall|i: int, j: int| 0 <= i < j < snapshot.sources@.len() implies (
    #[trigger] snapshot.sources@[i]).name() != (#[trigger] snapshot.sources@[j]).name() by {
        assert(session.sources[i].key.name() != session.sources[j].key.name());
    }
    assert forall|i: int, j: int| 0 <= i < j < candidates.len() implies !(
    #[trigger] candidates[i]).id.is((#[trigger] candidates[j]).id) by {
        assert(!session.matched[i].id.is(session.matched[j].id));
    }
    if let Some(id) = session.selected {
        lemma_candidate_found(session.matched, id);
        let i = candidate_index(session.matched, id)->0;
        assert(candidates[i].id.is(id));
    }
}

/// The engine after events, each held against some room.
pub open spec fn after_events(
    engine: EngineModel,
    events: Seq<(CompletionEvent, Capacities)>,
) -> EngineModel
    decreases events.len(),
{
    if events.len() == 0 {
        engine
    } else {
        engine_step(
            after_events(engine, events.drop_last()),
            events.last().0,
            events.last().1,
        ).0
    }
}

/// The items can be counted by a machine number all the way.
pub open spec fn countable_throughout(
    engine: EngineModel,
    events: Seq<(CompletionEvent, Capacities)>,
) -> bool {
    forall|k: int|
        0 <= k < events.len() ==> countable_after(
            #[trigger] after_events(engine, events.take(k)),
            events[k].0,
            events[k].1,
        )
}

/// Any events keep the engine coherent, as long as the items can be counted.
pub proof fn law_events_keep_coherence(
    engine: EngineModel,
    events: Seq<(CompletionEvent, Capacities)>,
)
    requires
        engine_coherent(engine),
        countable_throughout(engine, events),
    ensures
        engine_coherent(after_events(engine, events)),
        after_events(engine, events).limits == engine.limits,
    decreases events.len(),
{
    if events.len() > 0 {
        let shorter = events.drop_last();
        assert forall|k: int| 0 <= k < shorter.len() implies countable_after(
            #[trigger] after_events(engine, shorter.take(k)),
            shorter[k].0,
            shorter[k].1,
        ) by {
            assert(shorter.take(k) =~= events.take(k));
            assert(countable_after(
                after_events(engine, events.take(k)),
                events[k].0,
                events[k].1,
            ));
        }
        law_events_keep_coherence(engine, shorter);
        assert(events.take(events.len() - 1) =~= shorter);
        assert(countable_after(
            after_events(engine, events.take(events.len() - 1)),
            events.last().0,
            events.last().1,
        ));
        law_event_keeps_coherence(
            after_events(engine, shorter),
            events.last().0,
            events.last().1,
        );
    }
}

/// Whatever events an engine has taken in since it was made, a snapshot keeps within the limits.
pub proof fn law_snapshots_stay_bounded(
    limits: CompletionLimits,
    events: Seq<(CompletionEvent, Capacities)>,
    view: ViewId,
    snapshot: CompletionSnapshot,
    room: Capacities,
)
    requires
        limits.nonzero(),
        limits.consistent(),
        countable_throughout(
            (EngineModel { limits, sessions: Map::empty(), next_session: 1 }),
            events,
        ),
        ({
            let engine = after_events(
                EngineModel { limits, sessions: Map::empty(), next_session: 1 },
                events,
            );
            engine.sessions.contains_key(view.0) && shows_session(
                snapshot,
                engine.sessions[view.0],
                room,
            )
        }),
    ensures
        bounded(snapshot, limits, view),
{
    let start = EngineModel { limits, sessions: Map::empty(), next_session: 1 };
    law_events_keep_coherence(start, events);
    law_snapshot_is_bounded(after_events(start, events), view, snapshot, room);
}

/// Drives the completion sessions of all views.
pub struct CompletionEngine {
    limits: CompletionLimits,
    sessions: HashMap<u64, Session>,
    next_session: u64,
}

impl Default for CompletionEngine {
    fn default() -> (engine: Self)
        ensures
            engine.valid(),
            engine.model() == (EngineModel {
                limits: crate::completion::model::default_limits(),
                sessions: Map::empty(),
                next_session: 1,
            }),
    {
        CompletionEngine::with_limits(CompletionLimits::default())
    }
}

impl CompletionEngine {
    /// Everything that the engine holds.
    pub closed spec fn model(self) -> EngineModel {
        EngineModel {
            limits: self.limits,
            sessions: self.sessions@.map_values(|session: Session| session.model()),
            next_session: self.next_session as int,
        }
    }

    /// Every session is in order.
    pub closed spec fn valid(self) -> bool {
        &&& forall|view: u64| #[trigger]
            self.sessions@.contains_key(view) ==> self.sessions@[view].valid()
        &&& engine_coherent(self.model())
    }

    fn with_limits(limits: CompletionLimits) -> (engine: Self)
        requires
            limits.nonzero(),
            limits.consistent(),
        ensures
            engine.valid(),
            engine.model() == (EngineModel { limits, sessions: Map::empty(), next_session: 1 }),
    {
        let sessions: HashMap<u64, Session> = HashMap::new();
        let engine = CompletionEngine { limits, sessions, next_session: 1 };
        assert(engine.model().sessions =~= Map::empty());
        engine
    }

    /// An engine without sessions, where the limits can be used.
    pub fn new(limits: CompletionLimits) -> (result: Result<Self, CompletionConfigError>)
        ensures
            match result {
                Ok(engine) => {
                    &&& limits.nonzero()
                    &&& limits.consistent()
                    &&& engine.valid()
                    &&& engine.model() == (EngineModel {
                        limits,
                        sessions: Map::empty(),
                        next_session: 1,
                    })
                },
                Err(error) => if !limits.nonzero() {
                    error.message() == "completion limits must be nonzero"
                } else {
                    !limits.consistent() && error.message() == "completion limits are inconsistent"
                },
            },
    {
        match limits.validate() {
            Ok(limits) => Ok(CompletionEngine::with_limits(limits)),
            Err(error) => Err(error),
        }
    }

    /// Takes in an event and tells what has to be done.
    pub fn transition(&mut self, event: CompletionEvent) -> (effects: Vec<CompletionEffect>)
        requires
            old(self).valid(),
        ensures
            final(self).valid(),
            exists|room: Capacities| #[trigger]
                possible_room(old(self).model(), event, room) && engine_step(
                    old(self).model(),
                    event,
                    room,
                ) == (final(self).model(), effects@),
    {
        let ghost before = self.model();
        match event {
            CompletionEvent::Trigger { request, sources } => {
                let ghost named = sources@;
                let effects = self.trigger(request, sources);
                proof {
                    let room = choose|room: Capacities| #[trigger]
                        has_room(next_session(before, request, named), room) && trigger_step(
                            before,
                            request,
                            named,
                            room,
                        ) == (self.model(), effects@);
                    assert(possible_room(before, event, room));
                }
                effects
            },
            _ => {
                let view = view_of(&event);
                match self.sessions.remove(&view.0) {
                    None => {
                        assert(self.sessions@ =~= old(self).sessions@);
                        assert(possible_room(before, event, arbitrary()));
                        let committing = match &event {
                            CompletionEvent::AcceptanceCommitted { .. } => true,
                            _ => false,
                        };
                        if committing {
                            ignored(view, "stale acceptance commit")
                        } else {
                            ignored(view, "missing session")
                        }
                    },
                    Some(session) => {
                        assert(before.sessions[view.0] == session.model());
                        assert(before.sessions.contains_key(view.0));
                        let ghost others = self.sessions@;
                        let ghost first = session.model();
                        let (kept, effects, room) = apply(session, event, &self.limits);
                        proof {
                            let room = room@;
                            assert(possible_room(before, event, room));
                            law_event_keeps_coherence(before, event, room);
                        }
                        let ghost after = engine_step(before, event, room@).0;
                        if let Some(session) = kept {
                            let ghost next = session.model();
                            self.sessions.insert(view.0, session);
                            assert(self.model().sessions =~= before.sessions.insert(view.0, next));
                        } else {
                            assert(self.model().sessions =~= before.sessions.remove(view.0));
                        }
                        assert(self.model() =~= after);
                        effects
                    },
                }
            },
        }
    }
}

impl CompletionEngine {
    /// Starts a session on a request, or the next request of the session of its view.
    fn trigger(&mut self, seed: CompletionRequestSeed, sources: Vec<CompletionSourceKey>) -> (effects:
        Vec<CompletionEffect>)
        requires
            old(self).valid(),
        ensures
            final(self).valid(),
            exists|room: Capacities| #[trigger]
                has_room(next_session(old(self).model(), seed, sources@), room) && trigger_step(
                    old(self).model(),
                    seed,
                    sources@,
                    room,
                ) == (final(self).model(), effects@),
    {
        let ghost whole = next_session(self.model(), seed, sources@);
        proof {
            lemma_first_occurrences_differ(whole.request, sources@);
            assert(sources@.len() == sources.len());
            assert(has_room(whole, enough_room(whole)));
        }
        let (session, _) = match self.prepare(&seed, &sources) {
            Ok(prepared) => prepared,
            Err(reason) => {
                return rejected(seed.view(), reason);
            },
        };
        let room = session.capacities();
        assert(has_room(whole, room.model()));
        self.start(seed, sources, &room)
    }

    /// The session that a request starts, and the number of the next one after it.
    fn prepare(
        &self,
        seed: &CompletionRequestSeed,
        sources: &Vec<CompletionSourceKey>,
    ) -> (result: Result<(Session, u64), &'static str>)
        requires
            self.valid(),
        ensures
            ({
                let engine = self.model();
                let view = seed.model().view.0;
                match result {
                    Ok((session, next)) => {
                        &&& refusal(engine.limits, *seed, sources@) is None
                        &&& exhausted(engine, view) is None
                        &&& session.valid()
                        &&& session.model() == next_session(engine, *seed, sources@)
                        &&& next == if engine.sessions.contains_key(view) {
                            engine.next_session
                        } else {
                            engine.next_session + 1
                        }
                    },
                    Err(reason) => match refusal(engine.limits, *seed, sources@) {
                        Some(refused) => reason == refused,
                        None => exhausted(engine, view) == Some(reason),
                    },
                }
            }),
    {
        broadcast use {lemma_request_of, lemma_session_id_of};

        let ghost engine = self.model();
        let view = seed.view();
        let kept = match self.validate_request(seed, sources) {
            Ok(kept) => kept,
            Err(reason) => {
                return Err(reason);
            },
        };
        assert(engine.sessions.contains_key(view.0) == self.sessions@.contains_key(view.0));
        let (session_id, epoch, next) = match self.sessions.get(&view.0) {
            Some(current) => {
                assert(engine.sessions[view.0] == current.model());
                let epoch = current.request().epoch().0;
                if epoch == u64::MAX {
                    return Err("request epoch exhausted");
                }
                (current.request().session(), RequestEpoch(epoch + 1), self.next_session)
            },
            None => {
                if self.next_session == u64::MAX {
                    return Err("session identity exhausted");
                }
                (
                    CompletionSessionId::with_number(self.next_session),
                    RequestEpoch(1),
                    self.next_session + 1,
                )
            },
        };
        let request = CompletionRequest::from_seed(session_id, epoch, seed.clone());
        assert(request == next_request(engine, *seed));
        proof {
            lemma_first_occurrences_differ(request, sources@);
        }
        Ok((Session::new(request, &kept), next))
    }

    /// Starts a session on a request, or the next request of the session of its view, where the
    /// session has that much room and is within the limits with it.
    pub fn start(
        &mut self,
        seed: CompletionRequestSeed,
        sources: Vec<CompletionSourceKey>,
        room: &SessionCapacities,
    ) -> (effects: Vec<CompletionEffect>)
        requires
            old(self).valid(),
            has_room(next_session(old(self).model(), seed, sources@), room.model()),
        ensures
            final(self).valid(),
            trigger_step(old(self).model(), seed, sources@, room.model()) == (
                final(self).model(),
                effects@,
            ),
    {
        let ghost before = self.model();
        let ghost named = sources@;
        let view = seed.view();
        let (session, next) = match self.prepare(&seed, &sources) {
            Ok(prepared) => prepared,
            Err(reason) => {
                return rejected(view, reason);
            },
        };
        let request = session.request().clone();
        let ghost space = room.model();
        let ghost first = first_occurrences(named);
        if session.estimated_heap_upper_bound(room, 0, self.limits.visible_items)
            > self.limits.max_session_bytes {
            return rejected(view, "session limit exceeded");
        }
        proof {
            law_trigger_keeps_coherence(before, seed, named, space);
        }
        self.next_session = next;
        let mut effects = match self.sessions.remove(&view.0) {
            Some(current) => {
                assert(before.sessions[view.0] == current.model());
                current.cancel_effects()
            },
            None => Vec::new(),
        };
        let ghost cancelled = effects@;
        let mut i: usize = 0;
        let sources = first_named(&sources);
        let ghost asked = request_effects(request, sources@);
        assert(effects@ =~= cancelled + asked.take(0));
        while i < sources.len()
            invariant
                i <= sources.len(),
                asked == request_effects(request, sources@),
                effects@ == cancelled + asked.take(i as int),
            decreases sources.len() - i,
        {
            let key = request.source_key(sources[i].clone());
            effects.push(CompletionEffect::RequestSource { key, request: request.clone() });
            assert(asked.take(i + 1) =~= asked.take(i as int).push(asked[i as int]));
            assert(effects@ =~= cancelled + asked.take(i + 1));
            i = i + 1;
        }
        assert(asked.take(i as int) =~= asked);
        self.sessions.insert(view.0, session);
        effects.push(CompletionEffect::ViewChanged(view));
        proof {
            let (after, told) = trigger_step(before, seed, named, space);
            assert(effects@ =~= told);
            assert(self.model().sessions =~= after.sessions);
        }
        effects
    }

    /// The sources to ask, each once, where the request is within the limits.
    fn validate_request(
        &self,
        seed: &CompletionRequestSeed,
        sources: &Vec<CompletionSourceKey>,
    ) -> (result: Result<Vec<CompletionSourceKey>, &'static str>)
        ensures
            match result {
                Ok(kept) => refusal(self.model().limits, *seed, sources@) is None && kept@
                    == first_occurrences(sources@),
                Err(reason) => refusal(self.model().limits, *seed, sources@) == Some(reason),
            },
    {
        if seed.query().len() > self.limits.max_query_bytes {
            return Err("query byte limit exceeded");
        }
        if seed.context().estimated_heap_bytes() > self.limits.max_context_bytes
            || any_longer_than(&seed.context().strings(), self.limits.max_string_bytes) {
            return Err("request context limit exceeded");
        }
        if sources.len() > self.limits.max_sources || any_name_longer_than(
            sources,
            self.limits.max_source_key_bytes,
        ) {
            return Err("source limit exceeded");
        }
        Ok(first_named(sources))
    }

    /// Everything that a frontend shows of the session of a view.
    pub fn snapshot(&self, view: ViewId) -> (snapshot: Option<CompletionSnapshot>)
        requires
            self.valid(),
        ensures
            snapshot is Some <==> self.model().sessions.contains_key(view.0),
            snapshot matches Some(snapshot) ==> exists|room: Capacities| #[trigger]
                has_room(self.model().sessions[view.0], room) && shows_session(
                    snapshot,
                    self.model().sessions[view.0],
                    room,
                ),
            snapshot matches Some(snapshot) ==> bounded(snapshot, self.model().limits, view),
    {
        match self.sessions.get(&view.0) {
            Some(session) => {
                assert(self.model().sessions.contains_key(view.0));
                assert(self.model().sessions[view.0] == session.model());
                let room = session.capacities();
                assert forall|i: int| 0 <= i < session.model().matched.len() implies item_of(
                    session.model().sources,
                    (#[trigger] session.model().matched[i]).id,
                ) is Some by {
                    assert(candidate_coherent(session.model(), session.model().matched[i]));
                }
                let snapshot = session.snapshot(&room);
                assert(has_room(self.model().sessions[view.0], room.model()));
                proof {
                    law_snapshot_is_bounded(self.model(), view, snapshot, room.model());
                }
                Some(snapshot)
            },
            None => None,
        }
    }

    /// The views that have a session, in no particular order.
    pub fn active_views(&self) -> (views: Vec<ViewId>)
        ensures
            forall|view: ViewId|
                views@.contains(view) <==> #[trigger] self.model().sessions.contains_key(view.0),
            views@.no_duplicates(),
    {
        let mut views: Vec<ViewId> = Vec::new();
        let ghost keys = vstd::std_specs::hash::spec_keys_iter(&self.sessions).remaining();
        for view in iter: self.sessions.keys()
            invariant
                iter.seq() == keys,
                views@.len() == iter.index(),
                forall|i: int| 0 <= i < views@.len() ==> (#[trigger] views@[i]).0 == *keys[i],
        {
            views.push(ViewId(*view));
        }
        proof {
            assert(keys.unref().to_set() == self.sessions@.dom());
            assert forall|view: ViewId|
                views@.contains(view) <==> #[trigger] self.model().sessions.contains_key(
                    view.0,
                ) by {
                if views@.contains(view) {
                    let i = choose|i: int| 0 <= i < views@.len() && views@[i] == view;
                    assert(keys.unref()[i] == view.0);
                    assert(keys.unref().to_set().contains(view.0));
                }
                if self.model().sessions.contains_key(view.0) {
                    assert(keys.unref().to_set().contains(view.0));
                    let i = choose|i: int| 0 <= i < keys.unref().len() && keys.unref()[i] == view.0;
                    assert(views@[i] == view);
                }
            }
        }
        views
    }

    /// How many sources one request may ask.
    pub fn max_sources(&self) -> (count: usize)
        ensures
            count == self.model().limits.max_sources,
    {
        self.limits.max_sources
    }

    /// What the session of a view means for its keys.
    pub fn interaction_state(&self, view: ViewId) -> (state: Option<CompletionInteractionState>)
        ensures
            state == (if self.model().sessions.contains_key(view.0) {
                Some(
                    CompletionInteractionState {
                        content: self.model().sessions[view.0].request.asked().content,
                        has_selection: self.model().sessions[view.0].selected is Some,
                    },
                )
            } else {
                None
            }),
    {
        match self.sessions.get(&view.0) {
            Some(session) => {
                assert(self.model().sessions[view.0] == session.model());
                Some(
                    CompletionInteractionState {
                        content: session.request().content(),
                        has_selection: session.has_selection(),
                    },
                )
            },
            None => None,
        }
    }

    /// The request and the sources of the session of a view.
    pub fn request_and_sources(&self, view: ViewId) -> (result: Option<
        (&CompletionRequest, &[CompletionSourceKey]),
    >)
        requires
            self.valid(),
        ensures
            match result {
                Some((request, sources)) => {
                    &&& self.model().sessions.contains_key(view.0)
                    &&& *request == self.model().sessions[view.0].request
                    &&& sources@ == keys_of(self.model().sessions[view.0].sources)
                },
                None => !self.model().sessions.contains_key(view.0),
            },
    {
        match self.sessions.get(&view.0) {
            Some(session) => {
                assert(self.model().sessions[view.0] == session.model());
                Some((session.request(), session.source_order().as_slice()))
            },
            None => None,
        }
    }
}

/// Room for exactly what a session holds.
pub open spec fn enough_room(session: SessionModel) -> Capacities {
    Capacities {
        source_order: session.sources.len() as int,
        sources: session.sources.len() as int,
        chunks: session.sources.map_values(|source: SourceStatus| source.chunks.len() as int),
        matched: session.matched.len() as int,
    }
}

/// The sources, each where its name comes first.
fn first_named(sources: &Vec<CompletionSourceKey>) -> (kept: Vec<CompletionSourceKey>)
    ensures
        kept@ == first_occurrences(sources@),
{
    let mut kept: Vec<CompletionSourceKey> = Vec::new();
    let mut i: usize = 0;
    while i < sources.len()
        invariant
            i <= sources.len(),
            kept@ == first_occurrences(sources@.take(i as int)),
        decreases sources.len() - i,
    {
        assert(sources@.take(i + 1).drop_last() =~= sources@.take(i as int));
        if !holds_name(&kept, &sources[i]) {
            kept.push(sources[i].clone());
        }
        i = i + 1;
    }
    assert(sources@.take(i as int) =~= sources@);
    kept
}

/// Whether some name takes more than `limit` bytes.
fn any_name_longer_than(sources: &Vec<CompletionSourceKey>, limit: usize) -> (longer: bool)
    ensures
        longer == some_name_longer_than(sources@, limit),
{
    let mut i: usize = 0;
    while i < sources.len()
        invariant
            i <= sources.len(),
            forall|j: int| 0 <= j < i ==> byte_len((#[trigger] sources@[j]).name()) <= limit,
        decreases sources.len() - i,
    {
        if sources[i].as_str().len() > limit {
            assert(byte_len(sources@[i as int].name()) > limit);
            return true;
        }
        i = i + 1;
    }
    false
}

/// Whether some key has the name of `key`.
fn holds_name(sources: &Vec<CompletionSourceKey>, key: &CompletionSourceKey) -> (holds: bool)
    ensures
        holds == has_name(sources@, key.name()),
{
    let mut i: usize = 0;
    while i < sources.len()
        invariant
            i <= sources.len(),
            forall|j: int| 0 <= j < i ==> (#[trigger] sources@[j]).name() != key.name(),
        decreases sources.len() - i,
    {
        if sources[i] == *key {
            assert(sources@[i as int].name() == key.name());
            return true;
        }
        i = i + 1;
    }
    false
}

/// The view that an event is about.
fn view_of(event: &CompletionEvent) -> (view: ViewId)
    ensures
        view == event_view(*event),
{
    match event {
        CompletionEvent::Trigger { request, .. } => request.view(),
        CompletionEvent::InstallBatch(batch) => batch.key.view(),
        CompletionEvent::SourceCompleted(key) => key.view(),
        CompletionEvent::SourceFailed(key) => key.view(),
        CompletionEvent::SourceTimedOut(key) => key.view(),
        CompletionEvent::MoveSelection { view, .. } => *view,
        CompletionEvent::ResolveSelected { view } => *view,
        CompletionEvent::InstallResolved { key, .. } => key.view,
        CompletionEvent::AcceptSelected { view } => *view,
        CompletionEvent::AcceptanceCommitted { view, .. } => *view,
        CompletionEvent::CancelView { view } => *view,
    }
}

/// Takes an event in to the session of its view; no session is handed back where it has ended.
fn apply(session: Session, event: CompletionEvent, limits: &CompletionLimits) -> (result: (
    Option<Session>,
    Vec<CompletionEffect>,
    Ghost<Capacities>,
))
    requires
        session.valid(),
        coherent(session.model(), *limits),
        !(event is Trigger),
    ensures
        has_room(session.model(), result.2@),
        match result.0 {
            Some(kept) => {
                &&& kept.valid()
                &&& event is InstallBatch ==> countable(kept.model())
                &&& session_step(session.model(), *limits, event, result.2@) == (Step {
                    session: Some(kept.model()),
                    effects: result.1@,
                })
            },
            None => !(event is InstallBatch) && session_step(
                session.model(),
                *limits,
                event,
                result.2@,
            ) == (Step { session: None, effects: result.1@ }),
        },
{
    reveal(session_step);
    let mut session = session;
    let room = session.capacities();
    let ghost space = room.model();
    let effects = match event {
        CompletionEvent::InstallBatch(batch) => session.install_batch(batch, limits, &room),
        CompletionEvent::SourceCompleted(key) => session.source_completed(key),
        CompletionEvent::SourceFailed(key) => session.source_failed(key),
        CompletionEvent::SourceTimedOut(key) => session.source_timed_out(key),
        CompletionEvent::MoveSelection { view, movement } => session.select(view, movement),
        CompletionEvent::ResolveSelected { view } => session.resolve_selected(view),
        CompletionEvent::InstallResolved { key, data } => session.install_resolved(
            key,
            data,
            limits,
            &room,
        ),
        CompletionEvent::AcceptSelected { view } => session.accept_selected(view),
        CompletionEvent::AcceptanceCommitted { view, task, candidate } => {
            if session.may_commit(task, &candidate) {
                let ghost model = session.model();
                let mut effects = session.cancel_effects();
                effects.push(CompletionEffect::ViewChanged(view));
                assert(effects@ =~= end_session(model, view).effects);
                return (None, effects, Ghost(space));
            }
            ignored(view, "stale acceptance commit")
        },
        CompletionEvent::CancelView { view } => {
            let ghost model = session.model();
            let mut effects = session.cancel_effects();
            effects.push(CompletionEffect::ViewChanged(view));
            assert(effects@ =~= end_session(model, view).effects);
            return (None, effects, Ghost(space));
        },
        CompletionEvent::Trigger { .. } => Vec::new(),
    };
    (Some(session), effects, Ghost(space))
}

} // verus!
