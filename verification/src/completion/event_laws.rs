//! What the engine does with each event, and what counts against its limits.

use crate::completion::engine::{
    engine_step, event_view, exhausted, first_occurrences, law_trigger_asks_every_source_once,
    next_session, refusal, session_step, trigger_step, EngineModel,
};
use crate::completion::matcher::{Match, Matched};
use crate::completion::model::{
    arc_bytes, context_heap_bytes, context_texts, default_limits, item_heap_bytes, item_texts,
    lemma_source_key_of, option_arc_bytes, optional_text, resolve_heap_bytes, resolve_texts,
    seed_fits, some_longer_than, CandidateId, CompletionBatch, CompletionBatchKind,
    CompletionEffect, CompletionEvent, CompletionItem, CompletionLimits, CompletionRequestContext,
    CompletionRequestSeed, CompletionSourceKey, CompletionTaskKey, CompletionTextRange, ResolveData,
    ResolveRequestKey, SelectionMove, SourceRequestKey,
};
use crate::completion::session::SourceState;
use crate::completion::session_laws::{
    law_acceptance_inserts_what_the_item_brings, law_commit_ends_only_its_session,
    law_end_marks_only_its_source,
};
use crate::completion::state::{
    batch_step, estimated_bytes, item_of, items_bytes, lemma_candidate_found, lemma_source_index,
    move_step, names_differ, resolved_step, selected_index, upper_bound_bytes, Capacities,
    SessionModel, SourceEnd, SourceStatus,
};
use crate::measure::capped;
use crate::protocol::{Selection, ViewId};
use crate::text::{byte_len, chars_of};
use std::sync::Arc;
use vstd::layout::size_of;
use vstd::prelude::*;

verus! {

/// An event for a view without a session is ignored: nothing but a trigger starts one.
pub proof fn law_events_need_a_session(
    engine: EngineModel,
    event: CompletionEvent,
    room: Capacities,
)
    requires
        !(event is Trigger),
        !engine.sessions.contains_key(event_view(event).0),
    ensures
        engine_step(engine, event, room).0 == engine,
        engine_step(engine, event, room).1.len() == 1,
        engine_step(engine, event, room).1[0] == (CompletionEffect::Ignored {
            view: Some(event_view(event)),
            reason: if event is AcceptanceCommitted {
                "stale acceptance commit"
            } else {
                "missing session"
            },
        }),
{
}

/// A source is marked as done, as failed or as late by the event that says so, and by no other; its
/// items and all other sources stay.
pub proof fn law_ends_are_told_apart(
    engine: EngineModel,
    key: SourceRequestKey,
    room: Capacities,
    i: int,
)
    requires
        engine.sessions.contains_key(key.model().view.0),
        ({
            let session = engine.sessions[key.model().view.0];
            &&& names_differ(session.sources)
            &&& 0 <= i < session.sources.len()
            &&& session.sources[i].key.name() == key.model().source.name()
            &&& session.sources[i].pending
            &&& !session.sources[i].failed
            &&& !session.sources[i].timed_out
            &&& !session.sources[i].final_batch
            &&& session.request.model().session == key.model().task.session
            &&& session.request.model().epoch == key.model().task.epoch
        }),
    ensures
        ({
            let view = key.model().view.0;
            let done = engine_step(engine, CompletionEvent::SourceCompleted(key), room);
            let failed = engine_step(engine, CompletionEvent::SourceFailed(key), room);
            let late = engine_step(engine, CompletionEvent::SourceTimedOut(key), room);
            let of = |step: (EngineModel, Seq<CompletionEffect>)| step.0.sessions[view].sources[i];
            &&& of(done).final_batch && !of(done).failed && !of(done).timed_out
            &&& of(failed).failed && !of(failed).final_batch && !of(failed).timed_out
            &&& of(late).timed_out && !of(late).final_batch && !of(late).failed
            &&& !of(done).pending && !of(failed).pending && !of(late).pending
            &&& of(done).chunks == engine.sessions[view].sources[i].chunks
            &&& of(failed).chunks == engine.sessions[view].sources[i].chunks
            &&& of(late).chunks == engine.sessions[view].sources[i].chunks
            &&& done.1 == seq![CompletionEffect::ViewChanged(key.model().view)]
            &&& failed.1 == seq![CompletionEffect::ViewChanged(key.model().view)]
            &&& late.1 == seq![CompletionEffect::ViewChanged(key.model().view)]
        }),
{
    reveal(session_step);
    let session = engine.sessions[key.model().view.0];
    law_end_marks_only_its_source(session, key.model(), SourceEnd::Completed, i);
    law_end_marks_only_its_source(session, key.model(), SourceEnd::Failed, i);
    law_end_marks_only_its_source(session, key.model(), SourceEnd::TimedOut, i);
}

/// Accepting in a view hands out what the selected item of the session of that view inserts. The
/// session stays until the acceptance is committed.
pub proof fn law_acceptance_is_of_the_view(
    engine: EngineModel,
    view: ViewId,
    room: Capacities,
    candidate: CandidateId,
    item: CompletionItem,
)
    requires
        engine.sessions.contains_key(view.0),
        engine.sessions[view.0].selected == Some(candidate),
        item_of(engine.sessions[view.0].sources, candidate) == Some(item),
    ensures
        ({
            let step = engine_step(engine, CompletionEvent::AcceptSelected { view }, room);
            &&& step.0 == engine
            &&& step.1.len() == 1
            &&& step.1[0] matches CompletionEffect::Accept(acceptance) && {
                &&& acceptance.text == item.insert_text
                &&& acceptance.candidate == candidate
                &&& acceptance.view == view
                &&& acceptance.range == match item.insert_range {
                    Some(range) => range,
                    None => engine.sessions[view.0].request.asked().range,
                }
            }
        }),
{
    reveal(session_step);
    law_acceptance_inserts_what_the_item_brings(engine.sessions[view.0], view);
    assert(engine.sessions.insert(view.0, engine.sessions[view.0]) =~= engine.sessions);
}

/// A commit ends the session of its view exactly where it is of what is selected there and of the
/// request of that session, and a cancel ends it in any case.
pub proof fn law_sessions_end_when_told(
    engine: EngineModel,
    view: ViewId,
    task: CompletionTaskKey,
    candidate: CandidateId,
    room: Capacities,
)
    requires
        engine.sessions.contains_key(view.0),
    ensures
        ({
            let session = engine.sessions[view.0];
            let committed = engine_step(
                engine,
                CompletionEvent::AcceptanceCommitted { view, task, candidate },
                room,
            ).0;
            let cancelled = engine_step(engine, CompletionEvent::CancelView { view }, room).0;
            &&& !committed.sessions.contains_key(view.0) <==> {
                &&& session.request.model().session == task.session
                &&& session.request.model().epoch == task.epoch
                &&& session.selected is Some
                &&& session.selected->0.source.name() == candidate.source.name()
                &&& session.selected->0.batch == candidate.batch
                &&& session.selected->0.ordinal == candidate.ordinal
            }
            &&& !cancelled.sessions.contains_key(view.0)
        }),
{
    reveal(session_step);
    law_commit_ends_only_its_session(engine.sessions[view.0], view, task, candidate);
}

/// A move goes to the next candidate or to the one before, round the ends, or to the first, or to
/// none; from none it goes to the first or, backwards, to the last. Nothing else of the session
/// changes, but that what was resolved is dropped.
pub proof fn law_moves_go_where_they_say(
    engine: EngineModel,
    view: ViewId,
    movement: SelectionMove,
    room: Capacities,
)
    requires
        engine.sessions.contains_key(view.0),
        engine.sessions[view.0].matched.len() > 0,
    ensures
        ({
            let session = engine.sessions[view.0];
            let list = session.matched;
            let at = selected_index(session);
            let after = engine_step(
                engine,
                CompletionEvent::MoveSelection { view, movement },
                room,
            ).0.sessions[view.0];
            &&& after.selected == match movement {
                SelectionMove::First => Some(list[0].id),
                SelectionMove::Clear => None,
                SelectionMove::Next => if at is None || at == Some(list.len() - 1) {
                    Some(list[0].id)
                } else {
                    Some(list[at->0 + 1].id)
                },
                SelectionMove::Previous => if at is None || at == Some(0int) {
                    Some(list[list.len() - 1].id)
                } else {
                    Some(list[at->0 - 1].id)
                },
            }
            &&& after.matched == session.matched
            &&& after.sources == session.sources
            &&& after.request == session.request
            &&& after.resolved is None
        }),
{
    reveal(session_step);
    let session = engine.sessions[view.0];
    assert(session_step(
        session,
        engine.limits,
        CompletionEvent::MoveSelection { view, movement },
        room,
    ) == move_step(session, view, movement));
    if let Some(id) = session.selected {
        lemma_candidate_found(session.matched, id);
    }
}

/// What a text takes on the heap: its bytes, and two counts.
pub proof fn law_text_bytes(text: Arc<str>)
    ensures
        arc_bytes(text) == byte_len(chars_of(text)) + 2 * size_of::<usize>(),
{
}

/// What texts take on the heap.
pub open spec fn texts_bytes(texts: Seq<Seq<char>>) -> int
    decreases texts.len(),
{
    if texts.len() == 0 {
        0
    } else {
        texts_bytes(texts.drop_last()) + 2 * size_of::<usize>() + byte_len(texts.last())
    }
}

proof fn lemma_texts_bytes(a: Seq<Seq<char>>, b: Seq<Seq<char>>)
    ensures
        texts_bytes(a + b) == texts_bytes(a) + texts_bytes(b),
    decreases b.len(),
{
    if b.len() == 0 {
        assert(a + b =~= a);
    } else {
        assert((a + b).drop_last() =~= a + b.drop_last());
        lemma_texts_bytes(a, b.drop_last());
    }
}

proof fn lemma_optional_bytes(text: Option<Arc<str>>)
    ensures
        texts_bytes(optional_text(text)) == option_arc_bytes(text),
{
    reveal_with_fuel(texts_bytes, 2);
    if let Some(text) = text {
        assert(seq![chars_of(text)].drop_last() =~= Seq::<Seq<char>>::empty());
    }
}

/// An item takes what it is made of and every one of its texts.
pub proof fn law_item_counts_all_of_its_texts(item: CompletionItem)
    ensures
        item_heap_bytes(item) == size_of::<CompletionItem>() + texts_bytes(item_texts(item)),
{
    reveal_with_fuel(texts_bytes, 3);
    lemma_optional_bytes(item.filter_text);
    lemma_optional_bytes(item.sort_text);
    lemma_optional_bytes(item.detail);
    lemma_optional_bytes(item.kind);
    lemma_optional_bytes(item.group);
    let a = optional_text(item.filter_text);
    let b = optional_text(item.sort_text);
    let c = optional_text(item.detail);
    let d = optional_text(item.kind);
    let e = optional_text(item.group);
    let f = seq![chars_of(item.label), chars_of(item.insert_text)];
    assert(f.drop_last() =~= seq![chars_of(item.label)]);
    assert(f.drop_last().drop_last() =~= Seq::<Seq<char>>::empty());
    lemma_texts_bytes(a, b);
    lemma_texts_bytes(a + b, c);
    lemma_texts_bytes(a + b + c, d);
    lemma_texts_bytes(a + b + c + d, e);
    lemma_texts_bytes(a + b + c + d + e, f);
}

proof fn lemma_optional_contains(text: Option<Arc<str>>, other: Seq<char>)
    ensures
        optional_text(text).contains(other) <==> text is Some && chars_of(text->0) == other,
{
    if let Some(text) = text {
        assert(seq![chars_of(text)][0] == chars_of(text));
    }
}

/// The texts of an item are what it shows, what it is found and sorted by, what it inserts and what
/// else is told of it.
pub proof fn law_texts_of_an_item(item: CompletionItem, text: Seq<char>)
    ensures
        item_texts(item).contains(text) <==> {
            ||| chars_of(item.label) == text
            ||| chars_of(item.insert_text) == text
            ||| item.filter_text is Some && chars_of(item.filter_text->0) == text
            ||| item.sort_text is Some && chars_of(item.sort_text->0) == text
            ||| item.detail is Some && chars_of(item.detail->0) == text
            ||| item.kind is Some && chars_of(item.kind->0) == text
            ||| item.group is Some && chars_of(item.group->0) == text
        },
{
    broadcast use vstd::seq_lib::group_seq_properties;

    lemma_optional_contains(item.filter_text, text);
    lemma_optional_contains(item.sort_text, text);
    lemma_optional_contains(item.detail, text);
    lemma_optional_contains(item.kind, text);
    lemma_optional_contains(item.group, text);
    let f = seq![chars_of(item.label), chars_of(item.insert_text)];
    assert(f[0] == chars_of(item.label));
    assert(f[1] == chars_of(item.insert_text));
}

/// The texts of what a request is about are its language and resource and what is around the
/// cursor, and what is resolved of an item are its detail and documentation.
pub proof fn law_texts_of_a_context(
    context: CompletionRequestContext,
    data: ResolveData,
    text: Seq<char>,
)
    ensures
        context_texts(context).contains(text) <==> {
            let parts = context.model();
            ||| parts.language is Some && chars_of(parts.language->0) == text
            ||| parts.resource_path is Some && chars_of(parts.resource_path->0) == text
            ||| chars_of(parts.resource_name) == text
            ||| chars_of(parts.before_cursor) == text
            ||| chars_of(parts.after_cursor) == text
        },
        resolve_texts(data).contains(text) <==> {
            ||| data.detail is Some && chars_of(data.detail->0) == text
            ||| data.documentation is Some && chars_of(data.documentation->0) == text
        },
{
    broadcast use vstd::seq_lib::group_seq_properties;

    let parts = context.model();
    lemma_optional_contains(parts.language, text);
    lemma_optional_contains(parts.resource_path, text);
    lemma_optional_contains(data.detail, text);
    lemma_optional_contains(data.documentation, text);
    let f = seq![
        chars_of(parts.resource_name),
        chars_of(parts.before_cursor),
        chars_of(parts.after_cursor),
    ];
    assert(f[0] == chars_of(parts.resource_name));
    assert(f[1] == chars_of(parts.before_cursor));
    assert(f[2] == chars_of(parts.after_cursor));
}

/// What a request is about, and what is resolved, take every one of their texts.
pub proof fn law_context_counts_all_of_its_texts(
    context: CompletionRequestContext,
    data: ResolveData,
)
    ensures
        context_heap_bytes(context) == texts_bytes(context_texts(context)),
        resolve_heap_bytes(data) == texts_bytes(resolve_texts(data)),
{
    reveal_with_fuel(texts_bytes, 4);
    let parts = context.model();
    lemma_optional_bytes(parts.language);
    lemma_optional_bytes(parts.resource_path);
    lemma_optional_bytes(data.detail);
    lemma_optional_bytes(data.documentation);
    let a = optional_text(parts.language);
    let b = optional_text(parts.resource_path);
    let f = seq![
        chars_of(parts.resource_name),
        chars_of(parts.before_cursor),
        chars_of(parts.after_cursor),
    ];
    assert(f.drop_last() =~= seq![chars_of(parts.resource_name), chars_of(parts.before_cursor)]);
    assert(f.drop_last().drop_last() =~= seq![chars_of(parts.resource_name)]);
    assert(f.drop_last().drop_last().drop_last() =~= Seq::<Seq<char>>::empty());
    lemma_texts_bytes(a, b);
    lemma_texts_bytes(a + b, f);
    lemma_texts_bytes(optional_text(data.detail), optional_text(data.documentation));
}

/// Items take what each of them takes.
pub proof fn law_items_count_each(items: Seq<CompletionItem>, item: CompletionItem)
    ensures
        items_bytes(items.push(item)) == items_bytes(items) + item_heap_bytes(item),
        items_bytes(Seq::empty()) == 0,
{
    assert(items.push(item).drop_last() =~= items);
}

/// A batch in turn is refused exactly where it has too many items, takes too many bytes, or has a
/// text that is too long, or where its source or its session would be too large with it. It is told
/// which of the two it was, and its source has failed.
pub proof fn law_large_batches_are_refused(
    session: SessionModel,
    limits: CompletionLimits,
    batch: CompletionBatch,
    room: Capacities,
    i: int,
)
    requires
        names_differ(session.sources),
        0 <= i < session.sources.len(),
        session.sources[i].key.name() == batch.key.model().source.name(),
        session.request.model().session == batch.key.model().task.session,
        session.request.model().epoch == batch.key.model().task.epoch,
        !session.sources[i].timed_out,
        !session.sources[i].failed,
        !session.sources[i].final_batch,
        batch.kind is Replace ==> session.sources[i].version is None,
        batch.kind matches CompletionBatchKind::Append { sequence }
            ==> session.sources[i].version == Some(batch.version) && sequence
            == session.sources[i].next_sequence,
    ensures
        ({
            let step = batch_step(session, limits, batch, room);
            let large = {
                ||| batch.items@.len() > limits.max_source_items
                ||| capped(items_bytes(batch.items@)) > limits.max_batch_bytes
                ||| exists|k: int|
                    0 <= k < batch.items@.len() && some_longer_than(
                        item_texts(#[trigger] batch.items@[k]),
                        limits.max_string_bytes,
                    )
            };
            let crowded = {
                ||| batch.kind is Append && session.sources[i].item_count + batch.items@.len()
                    > limits.max_source_items && limits.max_source_items < usize::MAX
                ||| batch.kind is Append && session.sources[i].chunks.len()
                    >= limits.max_source_batches && limits.max_source_batches < usize::MAX
            };
            &&& large ==> step.effects.len() == 3 && step.effects[0] == (
            CompletionEffect::SourceFailed {
                key: batch.key,
                reason: "source batch limit exceeded",
            })
            &&& !large && crowded ==> step.effects.len() == 3 && step.effects[0] == (
            CompletionEffect::SourceFailed { key: batch.key, reason: "session limit exceeded" })
            &&& large || crowded ==> {
                let source = step.session->0.sources[i];
                &&& step.session is Some
                &&& step.effects[1] == CompletionEffect::CancelSource(batch.key)
                &&& step.effects[2] == CompletionEffect::ViewChanged(batch.key.model().view)
                &&& source.failed && !source.pending
                &&& source.chunks == session.sources[i].chunks
                &&& step.session->0.matched == session.matched
                &&& step.session->0.selected == session.selected
            }
        }),
{
    lemma_source_index(session.sources, batch.key.model().source.name(), i);
}

/// What is resolved counts fully in the size of its session, and so do the items.
pub proof fn law_size_counts_what_is_resolved(
    session: SessionModel,
    room: Capacities,
    candidate: CandidateId,
    data: ResolveData,
)
    requires
        session.resolved is None,
        resolve_heap_bytes(data) <= usize::MAX,
        estimated_bytes(
            SessionModel { resolved: Some((candidate, data)), ..session },
            room,
        ) < usize::MAX,
        resolve_heap_bytes(data) >= 0,
    ensures
        estimated_bytes(SessionModel { resolved: Some((candidate, data)), ..session }, room)
            == estimated_bytes(session, room) + resolve_heap_bytes(data),
        forall|bytes: int|
            0 <= bytes <= session.item_heap_bytes ==> #[trigger] estimated_bytes(
                SessionModel { item_heap_bytes: bytes, ..session },
                room,
            ) == estimated_bytes(session, room) - session.item_heap_bytes + bytes,
{
}

/// A request is made at a cursor without a selection, at the end of its range, and its query has as
/// many characters as that range.
pub proof fn law_request_is_made_at_the_cursor(
    selection: Selection,
    range: CompletionTextRange,
    query: Seq<char>,
)
    ensures
        seed_fits(selection, range, query) <==> {
            &&& selection.anchor == selection.head
            &&& selection.head == range.last()
            &&& range.first().char_index + query.len() == range.last().char_index
        },
{
}

/// Limits are consistent where no part may be larger than the whole and no more is shown than there
/// may be, at most ten thousand candidates.
pub proof fn law_consistent_limits(limits: CompletionLimits)
    ensures
        limits.consistent() <==> {
            &&& limits.max_session_bytes >= limits.max_batch_bytes
            &&& limits.max_session_bytes >= limits.max_string_bytes
            &&& limits.max_session_bytes >= limits.max_query_bytes
            &&& limits.max_session_bytes >= limits.max_context_bytes
            &&& limits.visible_items <= limits.max_session_items
            &&& limits.visible_items <= 10_000
        },
        limits.nonzero() <==> {
            &&& limits.max_sources != 0 && limits.max_source_key_bytes != 0
            &&& limits.max_source_items != 0 && limits.max_source_batches != 0
            &&& limits.max_batch_bytes != 0 && limits.max_session_items != 0
            &&& limits.max_session_bytes != 0 && limits.max_string_bytes != 0
            &&& limits.max_query_bytes != 0 && limits.max_context_bytes != 0
            &&& limits.visible_items != 0
        },
{
}

/// Counts go up to what a machine can count and stay there.
pub proof fn law_counts_are_capped(count: int)
    ensures
        count <= usize::MAX ==> capped(count) == count,
        count > usize::MAX ==> capped(count) == usize::MAX,
{
}

/// A text is too long where it has more bytes than the limit allows, and not where it has as many.
pub proof fn law_texts_up_to_the_limit_fit(texts: Seq<Seq<char>>, limit: usize)
    ensures
        some_longer_than(texts, limit) <==> exists|i: int|
            0 <= i < texts.len() && byte_len(#[trigger] texts[i]) > limit,
{
}

/// The size of a session counts every source with its name and its room for batches, and every
/// candidate with its positions.
pub proof fn law_size_counts_each_part(
    session: SessionModel,
    room: Capacities,
    source: SourceStatus,
    candidate: Match,
    capacity: int,
)
    requires
        capacity >= 0,
        estimated_bytes(
            SessionModel {
                sources: session.sources.push(source),
                matched: session.matched.push(candidate),
                ..session
            },
            Capacities {
                source_order: room.source_order + 1,
                sources: room.sources + 1,
                chunks: room.chunks.push(capacity),
                matched: room.matched + 1,
            },
        ) < usize::MAX,
    ensures
        estimated_bytes(
            SessionModel {
                sources: session.sources.push(source),
                matched: session.matched.push(candidate),
                ..session
            },
            Capacities {
                source_order: room.source_order + 1,
                sources: room.sources + 1,
                chunks: room.chunks.push(capacity),
                matched: room.matched + 1,
            },
        ) == estimated_bytes(session, room) + 2 * size_of::<CompletionSourceKey>() + size_of::<
            SourceState,
        >() + byte_len(source.key.name()) + capacity * size_of::<Box<[CompletionItem]>>()
            + size_of::<Matched>() + candidate.positions.len() * size_of::<usize>(),
{
    assert(session.sources.push(source).drop_last() =~= session.sources);
    assert(session.matched.push(candidate).drop_last() =~= session.matched);
    assert(room.chunks.push(capacity).drop_last() =~= room.chunks);
    let key = size_of::<CompletionSourceKey>() as int;
    let state = key + size_of::<SourceState>() as int;
    let entry = size_of::<Matched>() as int;
    let chunk = size_of::<Box<[CompletionItem]>>() as int;
    let word = size_of::<usize>() as int;
    let count = candidate.positions.len() as int;
    assert((room.source_order + 1) * key == room.source_order * key + key) by (nonlinear_arith);
    assert((room.sources + 1) * state == room.sources * state + state) by (nonlinear_arith);
    assert((room.matched + 1) * entry == room.matched * entry + entry) by (nonlinear_arith);
    assert(capacity * chunk >= 0) by (nonlinear_arith)
        requires
            capacity >= 0,
            chunk >= 0,
    ;
    assert(count * word >= 0) by (nonlinear_arith)
        requires
            count >= 0,
            word >= 0,
    ;
}

/// The most that a session can take is what it takes, and for each candidate that may be shown one
/// more entry with a position for every character of the query.
pub proof fn law_most_that_a_session_can_take(
    session: SessionModel,
    room: Capacities,
    visible: int,
)
    requires
        visible >= 0,
        upper_bound_bytes(session, room, session.item_heap_bytes, visible + 1) < usize::MAX,
    ensures
        upper_bound_bytes(session, room, session.item_heap_bytes, 0) == estimated_bytes(
            session,
            room,
        ),
        upper_bound_bytes(session, room, session.item_heap_bytes, visible + 1)
            == upper_bound_bytes(session, room, session.item_heap_bytes, visible) + size_of::<
            Matched,
        >() + chars_of(session.request.asked().query).len() * size_of::<usize>(),
{
    let each = size_of::<Matched>() + chars_of(session.request.asked().query).len() * size_of::<
        usize,
    >();
    assert((visible + 1) * each == visible * each + each) by (nonlinear_arith);
    assert(each >= 0);
}

/// What is allowed by default.
pub proof fn law_default_limits()
    ensures
        default_limits().max_sources == 64,
        default_limits().max_source_key_bytes == 256,
        default_limits().max_source_items == 100_000,
        default_limits().max_source_batches == 1_024,
        default_limits().max_batch_bytes == 48 * 1_048_576,
        default_limits().max_session_items == 100_000,
        default_limits().max_session_bytes == 64 * 1_048_576,
        default_limits().max_string_bytes == 1_048_576,
        default_limits().max_query_bytes == 16 * 1_024,
        default_limits().max_context_bytes == 64 * 1_024,
        default_limits().visible_items == 100,
{
}

/// A result for a candidate of a source that has failed or is late is stale. One with a text that
/// is too long, or with which the session would be too large, fails its source.
pub proof fn law_unwelcome_resolutions(
    session: SessionModel,
    limits: CompletionLimits,
    key: ResolveRequestKey,
    data: ResolveData,
    room: Capacities,
    i: int,
    at: int,
)
    requires
        names_differ(session.sources),
        0 <= i < session.sources.len(),
        session.sources[i].key.name() == key.candidate.source.name(),
        session.request.model().session == key.task.session,
        session.request.model().epoch == key.task.epoch,
        session.selected == Some(key.candidate),
        0 <= at < session.matched.len(),
        session.matched[at].id.is(key.candidate),
    ensures
        ({
            let step = resolved_step(session, limits, key, data, room);
            let available = !session.sources[i].failed && !session.sources[i].timed_out;
            let long = some_longer_than(resolve_texts(data), limits.max_string_bytes);
            let large = resolve_heap_bytes(data) > limits.max_session_bytes
                && limits.max_session_bytes < usize::MAX;
            &&& !available ==> step.session == Some(session) && step.effects == seq![
                CompletionEffect::Ignored { view: Some(key.view), reason: "stale resolve result" },
            ]
            &&& available && long ==> step.effects.len() == 3 && (step.effects[0]
                matches CompletionEffect::SourceFailed { key: told, reason }
                && told.model().source == key.candidate.source && reason
                == "resolve string limit exceeded")
            &&& available && !long && large ==> step.effects.len() == 3 && (step.effects[0]
                matches CompletionEffect::SourceFailed { key: told, reason }
                && told.model().source == key.candidate.source && reason
                == "resolve session limit exceeded")
            &&& available && (long || large) ==> {
                let source = step.session->0.sources[i];
                &&& step.session is Some
                &&& source.failed && !source.pending
                &&& step.session->0.resolved == session.resolved
            }
        }),
{
    broadcast use lemma_source_key_of;

    lemma_source_index(session.sources, key.candidate.source.name(), i);
    lemma_candidate_found(session.matched, key.candidate);
}

/// Where a source is named more than once, its first place counts.
pub proof fn law_first_place_of_a_source_counts(
    sources: Seq<CompletionSourceKey>,
    source: CompletionSourceKey,
)
    ensures
        first_occurrences(Seq::empty()) == Seq::<CompletionSourceKey>::empty(),
        (exists|i: int|
            0 <= i < sources.len() && (#[trigger] sources[i]).name() == source.name())
            ==> first_occurrences(sources.push(source)) == first_occurrences(sources),
        (forall|i: int|
            0 <= i < sources.len() ==> (#[trigger] sources[i]).name() != source.name())
            ==> first_occurrences(sources.push(source)) == first_occurrences(sources).push(source),
{
    assert(sources.push(source).drop_last() =~= sources);
    law_trigger_asks_every_source_once(sources, source.name());
}

/// A trigger that is refused, or that finds no number left, or whose session would be too large,
/// is rejected with its reason and changes nothing.
pub proof fn law_rejected_trigger_says_why(
    engine: EngineModel,
    seed: CompletionRequestSeed,
    sources: Seq<CompletionSourceKey>,
    room: Capacities,
)
    ensures
        ({
            let step = trigger_step(engine, seed, sources, room);
            let view = seed.model().view;
            let rejected = |reason: &'static str|
                step.0 == engine && step.1.len() == 1 && step.1[0] == (CompletionEffect::Rejected {
                    view: Some(view),
                    reason,
                });
            let refused = refusal(engine.limits, seed, sources);
            let large = upper_bound_bytes(
                next_session(engine, seed, sources),
                room,
                0,
                engine.limits.visible_items as int,
            ) > engine.limits.max_session_bytes;
            &&& refused matches Some(reason) ==> rejected(reason)
            &&& refused is None ==> {
                &&& engine.sessions.contains_key(view.0)
                    && engine.sessions[view.0].request.model().epoch.0 == u64::MAX ==> rejected(
                    "request epoch exhausted",
                )
                &&& !engine.sessions.contains_key(view.0) && engine.next_session == u64::MAX
                    ==> rejected("session identity exhausted")
                &&& exhausted(engine, view.0) is None && large ==> rejected(
                    "session limit exceeded",
                )
                &&& exhausted(engine, view.0) is None && !large
                    ==> step.0.sessions.contains_key(view.0) && step.0.sessions[view.0]
                    == next_session(engine, seed, sources)
            }
            &&& byte_len(chars_of(seed.model().query)) <= engine.limits.max_query_bytes && capped(
                context_heap_bytes(seed.model().context),
            ) <= engine.limits.max_context_bytes && !some_longer_than(
                context_texts(seed.model().context),
                engine.limits.max_string_bytes,
            ) && sources.len() > engine.limits.max_sources ==> refused == Some(
                "source limit exceeded",
            )
        }),
{
}

} // verus!
