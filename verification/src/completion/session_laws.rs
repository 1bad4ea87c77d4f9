//! What each event means for a session, in terms of its items and sources.

use crate::completion::engine::{
    exhausted, first_occurrences, has_name, refusal, trigger_step, EngineModel,
};
use crate::completion::matcher::{best_matches, law_list_holds_the_best, Match};
use crate::completion::model::{
    context_heap_bytes, item_texts, lemma_request_of, lemma_session_id_of, lemma_source_key_of,
    some_longer_than, CandidateId, CompletionBatch, CompletionBatchKind, CompletionCandidate,
    CompletionEffect, CompletionItem, CompletionLimits, CompletionRequest, CompletionRequestSeed,
    CompletionSnapshot, CompletionSourceKey, CompletionTaskKey, RequestEpoch, ResolveData,
    ResolveRequestKey, SelectionMove, SourceKeyModel, SourceRequestKey,
};
use crate::completion::state::{
    accept_step, all_items, all_offers, batch_step, cancel_effects, candidate_index, commit_step,
    end_session, end_step, estimated_bytes, fault_count, has_more, is_source, item_of, items_bytes,
    lemma_candidate_found, lemma_source_index, move_step, moved, names_differ, oversized,
    recomputed, resolve_step, resolved_step, selected_index, shows_candidate, shows_session,
    source_offers, Capacities, SessionModel, SourceEnd, SourceStatus,
};
use crate::measure::capped;
use crate::protocol::ViewId;
use crate::text::{byte_len, chars_of, numbers_key};
use vstd::prelude::*;

verus! {

/// Accepting hands out the text that the selected item inserts, not the one that it shows, and the
/// range that it brings or else the one of the request, together with what the request was about.
/// Where nothing is selected, or its item is gone, nothing is handed out. The session stays.
pub proof fn law_acceptance_inserts_what_the_item_brings(session: SessionModel, view: ViewId)
    ensures
        accept_step(session, view).session == Some(session),
        accept_step(session, view).effects.len() == 1,
        match session.selected {
            Some(candidate) => match item_of(session.sources, candidate) {
                Some(item) => accept_step(session, view).effects[0] matches
                    CompletionEffect::Accept(acceptance) && {
                    &&& acceptance.candidate == candidate
                    &&& acceptance.text == item.insert_text
                    &&& item.insert_range matches Some(range) ==> acceptance.range == range
                    &&& item.insert_range is None ==> acceptance.range
                        == session.request.asked().range
                    &&& acceptance.view == view
                    &&& acceptance.task.session == session.request.model().session
                    &&& acceptance.task.epoch == session.request.model().epoch
                    &&& acceptance.content == session.request.asked().content
                    &&& acceptance.content_revision == session.request.asked().content_revision
                    &&& acceptance.view_revision == session.request.asked().view_revision
                    &&& acceptance.selection == session.request.asked().selection
                },
                None => accept_step(session, view).effects[0] == (CompletionEffect::Ignored {
                    view: Some(view),
                    reason: "selected candidate disappeared",
                }),
            },
            None => accept_step(session, view).effects[0] == (CompletionEffect::Ignored {
                view: Some(view),
                reason: "no selected candidate",
            }),
        },
{
}

/// An identity names the item at its ordinal among those of its source, as long as the source
/// still holds the version that the identity carries; otherwise it names nothing.
pub proof fn law_identity_names_its_item(sources: Seq<SourceStatus>, id: CandidateId, i: int)
    requires
        names_differ(sources),
    ensures
        0 <= i < sources.len() && sources[i].key.name() == id.source.name() ==> item_of(sources, id)
            == if sources[i].version == Some(id.batch) && id.ordinal < all_items(
            sources[i].chunks,
        ).len() {
            Some(all_items(sources[i].chunks)[id.ordinal as int])
        } else {
            None
        },
        (forall|k: int|
            0 <= k < sources.len() ==> (#[trigger] sources[k]).key.name() != id.source.name())
            ==> item_of(sources, id) is None,
{
    if 0 <= i < sources.len() && sources[i].key.name() == id.source.name() {
        assert(is_source(sources, id.source.name(), i));
        lemma_source_index(sources, id.source.name(), i);
    }
}

/// The items of a source are those of its deliveries, one after the other.
pub proof fn law_items_are_what_was_delivered(
    chunks: Seq<Seq<CompletionItem>>,
    items: Seq<CompletionItem>,
)
    ensures
        all_items(chunks.push(items)) == all_items(chunks) + items,
        all_items(Seq::empty()) == Seq::<CompletionItem>::empty(),
        all_items(seq![items]) == items,
{
    reveal_with_fuel(all_items, 2);
    assert(chunks.push(items).drop_last() =~= chunks);
    assert(seq![items].drop_last() =~= Seq::<Seq<CompletionItem>>::empty());
    assert(Seq::<CompletionItem>::empty() + items =~= items);
}

/// A batch that is taken in comes from a source that is still at work on the request, and in
/// order: a replacement is newer than what the source has, an addition belongs to the same version
/// and is the next one. It keeps within the limits. A replacement takes the place of all items of
/// its source, an addition follows them, and no other source changes.
pub proof fn law_batch_brings_its_items(
    session: SessionModel,
    limits: CompletionLimits,
    batch: CompletionBatch,
    room: Capacities,
    i: int,
)
    requires
        names_differ(session.sources),
        0 <= i < session.sources.len(),
        session.sources[i].key.name() == batch.key.model().source.name(),
        batch_step(session, limits, batch, room).effects[0] is ViewChanged,
    ensures
        batch_step(session, limits, batch, room).session is Some,
        batch_step(session, limits, batch, room).effects == seq![
            CompletionEffect::ViewChanged(batch.key.model().view),
        ],
        ({
            let after = batch_step(session, limits, batch, room).session->0;
            let old = session.sources[i];
            let new = after.sources[i];
            &&& session.request.model().session == batch.key.model().task.session
            &&& session.request.model().epoch == batch.key.model().task.epoch
            &&& !old.timed_out && !old.failed && !old.final_batch
            &&& batch.kind is Replace ==> (old.version matches Some(version) ==> batch.version.0
                > version.0)
            &&& batch.kind matches CompletionBatchKind::Append { sequence } ==> old.version == Some(
                batch.version,
            ) && sequence == old.next_sequence
            &&& batch.items@.len() <= limits.max_source_items
            &&& forall|k: int|
                #![trigger batch.items@[k]]
                0 <= k < batch.items@.len() ==> byte_len(chars_of(batch.items@[k].label))
                    <= limits.max_string_bytes && byte_len(chars_of(batch.items@[k].insert_text))
                    <= limits.max_string_bytes
            &&& new.key == old.key
            &&& new.version == Some(batch.version)
            &&& batch.kind is Replace ==> all_items(new.chunks) == batch.items@ && new.next_sequence
                == 1 && new.chunks.len() == 1
            &&& batch.kind is Append ==> all_items(new.chunks) == all_items(old.chunks)
                + batch.items@ && new.chunks.len() == old.chunks.len() + 1 && (old.next_sequence
                < u32::MAX ==> new.next_sequence == old.next_sequence + 1) && (old.next_sequence
                == u32::MAX ==> new.next_sequence == 0)
            &&& new.chunks.len() <= usize::MAX ==> new.chunks.len() <= limits.max_source_batches
            &&& new.final_batch == batch.is_final
            &&& new.pending == !batch.is_final
            &&& !new.failed && !new.timed_out
            &&& new.incomplete == batch.incomplete
            &&& batch.kind is Replace ==> new.item_heap_bytes == capped(items_bytes(batch.items@))
            &&& batch.kind is Append ==> new.item_heap_bytes == capped(
                old.item_heap_bytes + capped(items_bytes(batch.items@)),
            )
            &&& after.sources.len() == session.sources.len()
            &&& forall|k: int|
                0 <= k < session.sources.len() && k != i ==> #[trigger] after.sources[k]
                    == session.sources[k]
            &&& after.request == session.request
            &&& after.item_count <= limits.max_session_items
        }),
{
    assert(is_source(session.sources, batch.key.model().source.name(), i));
    lemma_source_index(session.sources, batch.key.model().source.name(), i);
    law_items_are_what_was_delivered(session.sources[i].chunks, batch.items@);
    if oversized(batch, limits) {
        assert(batch_step(session, limits, batch, room).effects[0] is Ignored || batch_step(
            session,
            limits,
            batch,
            room,
        ).effects[0] is SourceFailed);
    }
    assert(!oversized(batch, limits));
    assert forall|k: int|
        #![trigger batch.items@[k]]
        0 <= k < batch.items@.len() implies byte_len(chars_of(batch.items@[k].label))
        <= limits.max_string_bytes && byte_len(chars_of(batch.items@[k].insert_text))
        <= limits.max_string_bytes by {
        let texts = item_texts(batch.items@[k]);
        assert(!some_longer_than(texts, limits.max_string_bytes));
        let n = texts.len() as int;
        assert(texts[n - 2] == chars_of(batch.items@[k].label));
        assert(texts[n - 1] == chars_of(batch.items@[k].insert_text));
    }
}

/// What is counted of a session after a batch: the items that its source had are no longer counted
/// and those that it has are.
pub proof fn law_batch_counts_its_items(
    session: SessionModel,
    limits: CompletionLimits,
    batch: CompletionBatch,
    room: Capacities,
    i: int,
)
    requires
        names_differ(session.sources),
        0 <= i < session.sources.len(),
        session.sources[i].key.name() == batch.key.model().source.name(),
        batch_step(session, limits, batch, room).effects[0] is ViewChanged,
        0 <= session.sources[i].item_count <= session.item_count,
        session.item_count + batch.items@.len() <= usize::MAX,
    ensures
        ({
            let after = batch_step(session, limits, batch, room).session->0;
            &&& batch.kind is Append ==> after.item_count == session.item_count + batch.items@.len()
            &&& batch.kind is Replace ==> after.item_count == session.item_count
                - session.sources[i].item_count + batch.items@.len()
        }),
{
    assert(is_source(session.sources, batch.key.model().source.name(), i));
    lemma_source_index(session.sources, batch.key.model().source.name(), i);
}

/// A batch of a source that is at work, in order and within the limits, is taken in where memory
/// is not limited.
pub proof fn law_batch_within_limits_is_taken_in(
    session: SessionModel,
    limits: CompletionLimits,
    batch: CompletionBatch,
    room: Capacities,
    i: int,
)
    requires
        names_differ(session.sources),
        0 <= i < session.sources.len(),
        session.sources[i].key.name() == batch.key.model().source.name(),
        session.request.model().session == batch.key.model().task.session,
        session.request.model().epoch == batch.key.model().task.epoch,
        !session.sources[i].timed_out,
        !session.sources[i].failed,
        !session.sources[i].final_batch,
        match batch.kind {
            CompletionBatchKind::Replace => session.sources[i].version matches Some(version)
                ==> batch.version.0 > version.0,
            CompletionBatchKind::Append { sequence } => session.sources[i].version == Some(
                batch.version,
            ) && sequence == session.sources[i].next_sequence,
        },
        batch.items@.len() <= limits.max_source_items,
        session.sources[i].item_count + batch.items@.len() <= limits.max_source_items,
        0 <= session.sources[i].item_count <= session.item_count,
        session.item_count + batch.items@.len() <= limits.max_session_items,
        session.sources[i].chunks.len() < limits.max_source_batches,
        limits.max_batch_bytes == usize::MAX,
        limits.max_session_bytes == usize::MAX,
        limits.max_string_bytes == usize::MAX,
    ensures
        batch_step(session, limits, batch, room).effects == seq![
            CompletionEffect::ViewChanged(batch.key.model().view),
        ],
{
    assert(is_source(session.sources, batch.key.model().source.name(), i));
    lemma_source_index(session.sources, batch.key.model().source.name(), i);
}

/// A batch that is not in order is ignored: a replacement that is not newer, and an addition to
/// another version or out of turn. So is one of a source that has ended or is not asked.
pub proof fn law_batch_out_of_turn_is_ignored(
    session: SessionModel,
    limits: CompletionLimits,
    batch: CompletionBatch,
    room: Capacities,
    i: int,
)
    requires
        names_differ(session.sources),
        session.request.model().session == batch.key.model().task.session,
        session.request.model().epoch == batch.key.model().task.epoch,
    ensures
        0 <= i < session.sources.len() && session.sources[i].key.name()
            == batch.key.model().source.name() ==> {
            let old = session.sources[i];
            let ignored = |reason: &'static str|
                batch_step(session, limits, batch, room).session == Some(session) && batch_step(
                    session,
                    limits,
                    batch,
                    room,
                ).effects == seq![
                    CompletionEffect::Ignored { view: Some(batch.key.model().view), reason },
                ];
            &&& old.timed_out ==> ignored("source timed out")
            &&& !old.timed_out && (old.failed || old.final_batch) ==> ignored(
                "source already completed",
            )
            &&& !old.timed_out && !old.failed && !old.final_batch ==> {
                &&& batch.kind is Replace && (old.version matches Some(version) && batch.version.0
                    <= version.0) ==> ignored("out-of-order source batch")
                &&& batch.kind matches CompletionBatchKind::Append { sequence } ==> (old.version
                    != Some(batch.version) || sequence != old.next_sequence ==> ignored(
                    "out-of-order source batch",
                ))
            }
        },
        (forall|k: int|
            0 <= k < session.sources.len() ==> (#[trigger] session.sources[k]).key.name()
                != batch.key.model().source.name()) ==> batch_step(
            session,
            limits,
            batch,
            room,
        ).effects == seq![
            CompletionEffect::Ignored {
                view: Some(batch.key.model().view),
                reason: "inactive source",
            },
        ],
{
    if 0 <= i < session.sources.len() && session.sources[i].key.name()
        == batch.key.model().source.name() {
        assert(is_source(session.sources, batch.key.model().source.name(), i));
        lemma_source_index(session.sources, batch.key.model().source.name(), i);
    }
}

/// The end of the work of a source marks that source as what it ended as, keeps its items, and
/// changes nothing else. A source that has ended is only ever marked as out of time.
pub proof fn law_end_marks_only_its_source(
    session: SessionModel,
    key: SourceKeyModel,
    end: SourceEnd,
    i: int,
)
    requires
        names_differ(session.sources),
        0 <= i < session.sources.len(),
        session.sources[i].key.name() == key.source.name(),
        session.request.model().session == key.task.session,
        session.request.model().epoch == key.task.epoch,
        end is TimedOut || !(session.sources[i].timed_out || session.sources[i].failed
            || session.sources[i].final_batch),
    ensures
        end_step(session, key, end).session is Some,
        end_step(session, key, end).effects == seq![CompletionEffect::ViewChanged(key.view)],
        ({
            let after = end_step(session, key, end).session->0;
            let old = session.sources[i];
            let new = after.sources[i];
            &&& !new.pending
            &&& new.final_batch == (old.final_batch || end is Completed)
            &&& new.failed == (old.failed || end is Failed)
            &&& new.timed_out == (old.timed_out || end is TimedOut)
            &&& new.key == old.key && new.version == old.version && new.chunks == old.chunks
                && new.item_count == old.item_count
            &&& after.sources.len() == session.sources.len()
            &&& forall|k: int|
                0 <= k < session.sources.len() && k != i ==> #[trigger] after.sources[k]
                    == session.sources[k]
            &&& after.matched == session.matched
            &&& after.selected == session.selected
            &&& after.resolved == session.resolved
            &&& after.item_count == session.item_count
            &&& after.request == session.request
        }),
{
    assert(is_source(session.sources, key.source.name(), i));
    lemma_source_index(session.sources, key.source.name(), i);
}

/// What tells of a source that is not at work on the request is ignored.
pub proof fn law_end_of_other_work_is_ignored(
    session: SessionModel,
    key: SourceKeyModel,
    end: SourceEnd,
)
    requires
        session.request.model().session != key.task.session || session.request.model().epoch
            != key.task.epoch,
    ensures
        end_step(session, key, end).session == Some(session),
        end_step(session, key, end).effects.len() == 1,
        end_step(session, key, end).effects[0] is Ignored,
{
}

/// To resolve is to ask the source of the selected candidate about that candidate, as long as the
/// source has neither failed nor run out of time.
pub proof fn law_resolve_asks_about_the_selected(session: SessionModel, view: ViewId, i: int)
    requires
        names_differ(session.sources),
        0 <= i < session.sources.len(),
        session.selected is Some,
        session.sources[i].key.name() == session.selected->0.source.name(),
    ensures
        resolve_step(session, view).session == Some(session),
        resolve_step(session, view).effects.len() == 1,
        session.sources[i].failed || session.sources[i].timed_out ==> resolve_step(
            session,
            view,
        ).effects[0] is Ignored,
        !session.sources[i].failed && !session.sources[i].timed_out ==> (resolve_step(
            session,
            view,
        ).effects[0] matches CompletionEffect::RequestResolve(key) && {
            &&& key.candidate == session.selected->0
            &&& key.view == view
            &&& key.task.session == session.request.model().session
            &&& key.task.epoch == session.request.model().epoch
        }),
{
    assert(is_source(session.sources, session.selected->0.source.name(), i));
    lemma_source_index(session.sources, session.selected->0.source.name(), i);
}

/// Resolve data that is taken in is what is resolved of its candidate, which is the selected one,
/// and nothing else changes.
pub proof fn law_resolution_is_of_the_selected(
    session: SessionModel,
    limits: CompletionLimits,
    key: ResolveRequestKey,
    data: ResolveData,
    room: Capacities,
)
    ensures
        resolved_step(session, limits, key, data, room).effects[0] is ViewChanged ==> {
            let after = resolved_step(session, limits, key, data, room).session->0;
            &&& resolved_step(session, limits, key, data, room).session is Some
            &&& resolved_step(session, limits, key, data, room).effects == seq![
                CompletionEffect::ViewChanged(key.view),
            ]
            &&& after.resolved == Some((key.candidate, data))
            &&& session.selected is Some && session.selected->0.is(key.candidate)
            &&& session.request.model().session == key.task.session
            &&& session.request.model().epoch == key.task.epoch
            &&& after.sources == session.sources && after.matched == session.matched
                && after.selected == session.selected && after.request == session.request
        },
        session.request.model().session != key.task.session || session.request.model().epoch
            != key.task.epoch || session.selected is None || !session.selected->0.is(key.candidate)
            ==> resolved_step(session, limits, key, data, room).session == Some(session)
            && resolved_step(session, limits, key, data, room).effects == seq![
            CompletionEffect::Ignored { view: Some(key.view), reason: "stale resolve result" },
        ],
        (forall|k: int|
            0 <= k < session.matched.len() ==> !(#[trigger] session.matched[k]).id.is(
                key.candidate,
            )) ==> resolved_step(session, limits, key, data, room).effects == seq![
            CompletionEffect::Ignored { view: Some(key.view), reason: "stale resolve result" },
        ],
{
    lemma_candidate_found(session.matched, key.candidate);
}

/// Resolve data for the selected candidate is taken in where it is listed, its source can still be
/// asked, and neither strings nor memory are limited.
pub proof fn law_resolution_within_limits_is_taken_in(
    session: SessionModel,
    limits: CompletionLimits,
    key: ResolveRequestKey,
    data: ResolveData,
    room: Capacities,
    i: int,
    at: int,
)
    requires
        names_differ(session.sources),
        0 <= i < session.sources.len(),
        session.sources[i].key.name() == key.candidate.source.name(),
        !session.sources[i].failed,
        !session.sources[i].timed_out,
        session.request.model().session == key.task.session,
        session.request.model().epoch == key.task.epoch,
        session.selected == Some(key.candidate),
        0 <= at < session.matched.len(),
        session.matched[at].id.is(key.candidate),
        limits.max_string_bytes == usize::MAX,
        limits.max_session_bytes == usize::MAX,
    ensures
        resolved_step(session, limits, key, data, room).effects[0] is ViewChanged,
{
    assert(is_source(session.sources, key.candidate.source.name(), i));
    lemma_source_index(session.sources, key.candidate.source.name(), i);
    lemma_candidate_found(session.matched, key.candidate);
}

/// A commit ends the session exactly where it is one of the request that the session answers and
/// of the candidate that is selected; otherwise the session stays.
pub proof fn law_commit_ends_only_its_session(
    session: SessionModel,
    view: ViewId,
    task: CompletionTaskKey,
    candidate: CandidateId,
)
    ensures
        commit_step(session, view, task, candidate).session is None
            <==> session.request.model().session
            == task.session && session.request.model().epoch == task.epoch && session.selected
            is Some && session.selected->0.is(candidate),
        commit_step(session, view, task, candidate).session is Some ==> commit_step(
            session,
            view,
            task,
            candidate,
        ).session == Some(session) && commit_step(session, view, task, candidate).effects == seq![
            CompletionEffect::Ignored { view: Some(view), reason: "stale acceptance commit" },
        ],
{
}

/// Two identities name the same candidate exactly where source, version and ordinal are the same.
pub proof fn law_same_candidate(a: CandidateId, b: CandidateId)
    ensures
        a.is(b) <==> a.source.name() == b.source.name() && a.batch == b.batch && a.ordinal
            == b.ordinal,
{
}

/// A session that ends stops exactly the sources that are still at work, in their order, and has
/// the view drawn again.
pub proof fn law_end_stops_the_sources_at_work(session: SessionModel, view: ViewId)
    ensures
        end_session(session, view).session is None,
        end_session(session, view).effects == session.sources.filter(
            |source: SourceStatus| source.pending,
        ).map_values(
            |source: SourceStatus|
                CompletionEffect::CancelSource(
                    SourceRequestKey::of(
                        SourceKeyModel {
                            view: session.request.asked().view,
                            task: CompletionTaskKey {
                                session: session.request.model().session,
                                epoch: session.request.model().epoch,
                            },
                            source: source.key,
                        },
                    ),
                ),
        ) + seq![CompletionEffect::ViewChanged(view)],
{
    lemma_cancel_effects(session.request, session.sources);
}

proof fn lemma_cancel_effects(request: CompletionRequest, sources: Seq<SourceStatus>)
    ensures
        cancel_effects(request, sources) == sources.filter(
            |source: SourceStatus| source.pending,
        ).map_values(
            |source: SourceStatus|
                CompletionEffect::CancelSource(
                    SourceRequestKey::of(
                        SourceKeyModel {
                            view: request.asked().view,
                            task: CompletionTaskKey {
                                session: request.model().session,
                                epoch: request.model().epoch,
                            },
                            source: source.key,
                        },
                    ),
                ),
        ),
    decreases sources.len(),
{
    reveal(Seq::filter);
    let at_work = |source: SourceStatus| source.pending;
    let stop = |source: SourceStatus|
        CompletionEffect::CancelSource(
            SourceRequestKey::of(
                SourceKeyModel {
                    view: request.asked().view,
                    task: CompletionTaskKey {
                        session: request.model().session,
                        epoch: request.model().epoch,
                    },
                    source: source.key,
                },
            ),
        );
    if sources.len() > 0 {
        let fewer = sources.drop_last();
        lemma_cancel_effects(request, fewer);
        if sources.last().pending {
            assert(fewer.filter(at_work).push(sources.last()).map_values(stop) =~= fewer.filter(
                at_work,
            ).map_values(stop).push(stop(sources.last())));
        }
    } else {
        assert(sources.filter(at_work).map_values(stop) =~= Seq::empty());
    }
}

/// A move tells which candidate is selected after it and where that stands in the list.
pub proof fn law_move_tells_where_the_selection_is(
    session: SessionModel,
    view: ViewId,
    movement: SelectionMove,
)
    requires
        session.matched.len() <= usize::MAX,
    ensures
        move_step(session, view, movement).session == Some(moved(session, movement)),
        move_step(session, view, movement).effects.len() == 1,
        move_step(session, view, movement).effects[0] matches CompletionEffect::SelectionChanged(
            change,
        ) && {
            &&& change.view == view
            &&& change.candidate == moved(session, movement).selected
            &&& change.candidate is None ==> change.visible_index is None
            &&& change.visible_index matches Some(index) ==> index < session.matched.len()
                && session.matched[index as int].id.is(change.candidate->0)
            &&& change.visible_index is None && change.candidate is Some ==> forall|k: int|
                0 <= k < session.matched.len() ==> !(#[trigger] session.matched[k]).id.is(
                    change.candidate->0,
                )
        },
{
    let after = moved(session, movement);
    if let Some(id) = after.selected {
        lemma_candidate_found(after.matched, id);
    }
}

/// A trigger that is taken in first stops the sources that are still at work for its view, in their
/// order, then asks every source that it names, each once and in order, with the request that it
/// makes, and has the view drawn again.
pub proof fn law_trigger_asks_its_sources(
    engine: EngineModel,
    seed: CompletionRequestSeed,
    sources: Seq<CompletionSourceKey>,
    room: Capacities,
    k: int,
)
    requires
        trigger_step(engine, seed, sources, room).0 != engine,
        0 <= k < first_occurrences(sources).len(),
    ensures
        ({
            let view = seed.model().view;
            let step = trigger_step(engine, seed, sources, room);
            let session = step.0.sessions[view.0];
            let stopped = if engine.sessions.contains_key(view.0) {
                engine.sessions[view.0].sources.filter(
                    |source: SourceStatus| source.pending,
                ).len() as int
            } else {
                0
            };
            &&& step.1.len() == stopped + first_occurrences(sources).len() + 1
            &&& step.1.last() == CompletionEffect::ViewChanged(view)
            &&& step.1[stopped + k] matches CompletionEffect::RequestSource { key, request } && {
                &&& key.model().source == first_occurrences(sources)[k]
                &&& key.model().view == view
                &&& key.model().task.session == session.request.model().session
                &&& key.model().task.epoch == session.request.model().epoch
                &&& request == session.request
                &&& request.model().seed == seed
            }
        }),
{
    broadcast use {lemma_request_of, lemma_session_id_of, lemma_source_key_of};

    let view = seed.model().view;
    if engine.sessions.contains_key(view.0) {
        lemma_cancel_effects(engine.sessions[view.0].request, engine.sessions[view.0].sources);
    }
}

/// Sources whose names differ are all asked, in the order in which they are named.
pub proof fn law_differing_sources_are_asked_in_order(sources: Seq<CompletionSourceKey>)
    requires
        forall|i: int, j: int|
            0 <= i < j < sources.len() ==> (#[trigger] sources[i]).name() != (
            #[trigger] sources[j]).name(),
    ensures
        first_occurrences(sources) == sources,
    decreases sources.len(),
{
    if sources.len() > 0 {
        let fewer = sources.drop_last();
        assert forall|i: int, j: int| 0 <= i < j < fewer.len() implies (
        #[trigger] fewer[i]).name() != (#[trigger] fewer[j]).name() by {
            assert(sources[i].name() != sources[j].name());
        }
        law_differing_sources_are_asked_in_order(fewer);
        if has_name(fewer, sources.last().name()) {
            let i = choose|i: int|
                0 <= i < fewer.len() && (#[trigger] fewer[i]).name() == sources.last().name();
            assert(sources[i].name() != sources[sources.len() - 1].name());
        }
        assert(fewer.push(sources.last()) =~= sources);
    } else {
        assert(first_occurrences(sources) =~= sources);
    }
}

/// A session starts with nothing listed, selected, resolved or counted, and waits for every source
/// that is asked, in order.
pub proof fn law_session_starts_empty(
    engine: EngineModel,
    seed: CompletionRequestSeed,
    sources: Seq<CompletionSourceKey>,
    room: Capacities,
)
    requires
        trigger_step(engine, seed, sources, room).0 != engine,
    ensures
        ({
            let session = trigger_step(engine, seed, sources, room).0.sessions[seed.model().view.0];
            &&& session.matched.len() == 0
            &&& session.selected is None
            &&& session.resolved is None
            &&& session.item_count == 0
            &&& session.sources.len() == first_occurrences(sources).len()
            &&& forall|i: int|
                0 <= i < session.sources.len() ==> {
                    let source = #[trigger] session.sources[i];
                    &&& source.key == first_occurrences(sources)[i]
                    &&& source.pending && !source.final_batch && !source.failed
                        && !source.timed_out
                    &&& source.version is None
                    &&& source.chunks.len() == 0
                }
        }),
{
}

/// A request is refused on sight exactly where its query, its context or its sources are larger
/// than the limits allow, and the reason says which.
pub proof fn law_large_requests_are_refused(
    limits: CompletionLimits,
    seed: CompletionRequestSeed,
    sources: Seq<CompletionSourceKey>,
)
    ensures
        byte_len(chars_of(seed.model().query)) > limits.max_query_bytes ==> refusal(
            limits,
            seed,
            sources,
        ) == Some("query byte limit exceeded"),
        byte_len(chars_of(seed.model().query)) <= limits.max_query_bytes && capped(
            context_heap_bytes(seed.model().context),
        ) > limits.max_context_bytes ==> refusal(limits, seed, sources) == Some(
            "request context limit exceeded",
        ),
        sources.len() > limits.max_sources ==> refusal(limits, seed, sources) is Some,
        (exists|i: int|
            0 <= i < sources.len() && byte_len((#[trigger] sources[i]).name())
                > limits.max_source_key_bytes) ==> refusal(limits, seed, sources) is Some,
        byte_len(chars_of(seed.model().query)) <= limits.max_query_bytes && sources.len()
            <= limits.max_sources && limits.max_context_bytes == usize::MAX
            && limits.max_string_bytes == usize::MAX && (forall|i: int|
            0 <= i < sources.len() ==> byte_len((#[trigger] sources[i]).name())
                <= limits.max_source_key_bytes) ==> refusal(limits, seed, sources) is None,
{
}

/// A request is refused for want of numbers only where the last one has been given out.
pub proof fn law_numbers_run_out_last(engine: EngineModel, view: u64)
    ensures
        engine.sessions.contains_key(view) ==> (exhausted(engine, view) is Some
            <==> engine.sessions[view].request.model().epoch == RequestEpoch(u64::MAX)),
        !engine.sessions.contains_key(view) ==> (exhausted(engine, view) is Some
            <==> engine.next_session == u64::MAX),
{
}

/// A frontend sees of a candidate what its item shows, never what it inserts, and where it matches
/// as long as the query was held against the label.
pub proof fn law_candidate_is_shown_as_its_item(
    candidate: CompletionCandidate,
    matched: Match,
    item: CompletionItem,
)
    requires
        shows_candidate(candidate, matched, item),
    ensures
        candidate.id == matched.id,
        candidate.label == item.label,
        candidate.detail == item.detail,
        candidate.kind == item.kind,
        candidate.group == item.group,
        candidate.deprecated == item.deprecated,
        item.filter_text is None ==> numbers_key((*candidate.match_positions)@)
            == matched.positions,
        item.filter_text matches Some(text) ==> (chars_of(text) == chars_of(item.label)
            ==> numbers_key((*candidate.match_positions)@) == matched.positions),
        item.filter_text matches Some(text) ==> (chars_of(text) != chars_of(item.label)
            ==> (*candidate.match_positions)@.len() == 0),
{
    if let Some(text) = item.filter_text {
        if chars_of(text) != chars_of(item.label) {
            assert(numbers_key((*candidate.match_positions)@).len() == 0);
        }
    }
}

/// A snapshot shows the session: its request and sources in order, a candidate for each place of
/// the list, what is selected and resolved, whether a source is still at work or has more to
/// offer, how many have failed or run out of time, and how many items there are.
pub proof fn law_snapshot_shows_the_session(
    snapshot: CompletionSnapshot,
    session: SessionModel,
    room: Capacities,
    i: int,
    k: int,
)
    requires
        shows_session(snapshot, session, room),
    ensures
        snapshot.request == session.request,
        snapshot.selected == session.selected,
        snapshot.resolved == session.resolved,
        snapshot.item_count == session.item_count,
        snapshot.estimated_heap_bytes == estimated_bytes(session, room),
        snapshot.source_count == session.sources.len(),
        snapshot.sources@.len() == session.sources.len(),
        0 <= i < session.sources.len() ==> snapshot.sources@[i] == session.sources[i].key,
        0 <= i < session.sources.len() && session.sources[i].pending ==> snapshot.collecting,
        snapshot.collecting ==> exists|j: int|
            0 <= j < session.sources.len() && (#[trigger] session.sources[j]).pending,
        0 <= i < session.sources.len() && (session.sources[i].incomplete.forward
            || session.sources[i].incomplete.backward) ==> snapshot.incomplete,
        snapshot.incomplete ==> exists|j: int|
            #![trigger session.sources[j]]
            0 <= j < session.sources.len() && (session.sources[j].incomplete.forward
                || session.sources[j].incomplete.backward),
        snapshot.source_faults == session.sources.filter(
            |source: SourceStatus| source.failed || source.timed_out,
        ).len(),
        snapshot.candidates@.len() == session.matched.len(),
        0 <= k < session.matched.len() ==> snapshot.candidates@[k].id == session.matched[k].id
            && shows_candidate(
            snapshot.candidates@[k],
            session.matched[k],
            item_of(session.sources, session.matched[k].id)->0,
        ),
{
    lemma_fault_count(session.sources);
    if 0 <= i < session.sources.len() && has_more(session.sources[i]) {
        assert(has_more(session.sources[i]));
    }
    if snapshot.incomplete {
        let j = choose|j: int| 0 <= j < session.sources.len() && has_more(
            #[trigger] session.sources[j],
        );
        assert(session.sources[j].incomplete.forward || session.sources[j].incomplete.backward);
    }
}

proof fn lemma_fault_count(sources: Seq<SourceStatus>)
    ensures
        fault_count(sources) == sources.filter(
            |source: SourceStatus| source.failed || source.timed_out,
        ).len(),
    decreases sources.len(),
{
    reveal(Seq::filter);
    if sources.len() > 0 {
        lemma_fault_count(sources.drop_last());
    }
}

/// Once the items have changed the list is the best of all items, where nothing was selected or
/// what was is among them. Otherwise the selected candidate takes the last place, or follows them
/// where there is room, as long as its item is there.
pub proof fn law_list_is_the_best_of_all_items(session: SessionModel, limit: int)
    requires
        limit > 0,
    ensures
        ({
            let after = recomputed(session, limit);
            let best = best_matches(
                chars_of(session.request.asked().query),
                all_offers(session.sources),
                limit,
            );
            &&& after.sources == session.sources && after.request == session.request
            &&& session.selected is None ==> after.matched == best
            &&& selected_index(session) is None ==> after.matched == best
            &&& selected_index(session) matches Some(at) ==> {
                let pinned = session.matched[at];
                &&& item_of(session.sources, pinned.id) is None ==> after.matched == best
                &&& candidate_index(best, pinned.id) is Some ==> after.matched == best
                &&& item_of(session.sources, pinned.id) is Some && candidate_index(
                    best,
                    pinned.id,
                ) is None ==> {
                    &&& after.matched.last() == pinned
                    &&& best.len() < limit ==> after.matched.drop_last() == best
                    &&& best.len() == limit ==> after.matched.drop_last() == best.drop_last()
                }
            }
        }),
{
    let best = best_matches(
        chars_of(session.request.asked().query),
        all_offers(session.sources),
        limit,
    );
    law_list_holds_the_best(
        chars_of(session.request.asked().query),
        all_offers(session.sources),
        limit,
    );
    if let Some(at) = selected_index(session) {
        let pinned = session.matched[at];
        assert(best.push(pinned).drop_last() =~= best);
        assert(best.drop_last().push(pinned).drop_last() =~= best.drop_last());
    }
}

/// Once the items have changed, what was selected stays so exactly where it is still listed, and
/// nothing else is selected in its place. Where nothing was selected the first candidate becomes so
/// only where nothing was listed before. What was resolved stays with its candidate only.
pub proof fn law_selection_after_items_changed(session: SessionModel, limit: int)
    ensures
        ({
            let after = recomputed(session, limit);
            &&& session.selected matches Some(id) ==> {
                &&& candidate_index(after.matched, id) is Some ==> after.selected == Some(id)
                &&& candidate_index(after.matched, id) is None ==> after.selected is None
            }
            &&& session.selected is None && session.matched.len() > 0 ==> after.selected is None
            &&& session.selected is None && session.matched.len() == 0 && after.matched.len() > 0
                ==> after.selected == Some(after.matched[0].id)
            &&& after.resolved matches Some((id, _)) ==> after.resolved == session.resolved
                && after.selected is Some && after.selected->0.is(id)
            &&& session.resolved matches Some((id, _)) ==> (after.selected is Some
                && after.selected->0.is(id) ==> after.resolved == session.resolved)
        }),
{
}

/// Every item that a source holds is put forward, under its identity and with the place of its
/// source, and nothing else is.
pub proof fn law_every_item_is_put_forward(sources: Seq<SourceStatus>, i: int, ordinal: int)
    requires
        0 <= i < sources.len(),
        sources[i].version is Some,
        0 <= ordinal < all_items(sources[i].chunks).len(),
        all_items(sources[i].chunks).len() <= usize::MAX,
    ensures
        exists|k: int| 0 <= k < all_offers(sources).len() && ({
            let offer = #[trigger] all_offers(sources)[k];
            &&& offer.item == all_items(sources[i].chunks)[ordinal]
            &&& offer.id.source == sources[i].key
            &&& Some(offer.id.batch) == sources[i].version
            &&& offer.id.ordinal == ordinal
            &&& offer.source_order == i
        }),
    decreases sources.len(),
{
    let fewer = sources.drop_last();
    let before = all_offers(fewer);
    if i < fewer.len() {
        law_every_item_is_put_forward(fewer, i, ordinal);
        let k = choose|k: int| 0 <= k < before.len() && ({
            let offer = #[trigger] before[k];
            &&& offer.item == all_items(fewer[i].chunks)[ordinal]
            &&& offer.id.source == fewer[i].key
            &&& Some(offer.id.batch) == fewer[i].version
            &&& offer.id.ordinal == ordinal
            &&& offer.source_order == i
        });
        assert(all_offers(sources)[k] == before[k]);
    } else {
        let k = before.len() + ordinal;
        assert(all_offers(sources)[k] == source_offers(sources[i], i)[ordinal]);
    }
}

} // verus!
