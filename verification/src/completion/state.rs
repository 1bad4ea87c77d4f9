//! The state of a completion session as values, and what each event does to it.

use crate::completion::matcher::{best_matches, Match, Matched, Offer};
use crate::completion::model::{
    item_heap_bytes, item_texts, resolve_heap_bytes, resolve_texts, seed_heap_bytes,
    some_longer_than, CandidateId, CompletionAcceptance, CompletionBatch, CompletionBatchKind,
    CompletionCandidate, CompletionEffect, CompletionItem, CompletionLimits, CompletionRequest,
    CompletionSelectionChange, CompletionSnapshot, CompletionSourceKey, CompletionTaskKey,
    IncompleteDirections, ResolveData, ResolveRequestKey, SelectionMove, SourceBatchVersion,
    SourceKeyModel, SourceRequestKey,
};
use crate::completion::session::{Session, SourceState};
use crate::measure::capped;
use crate::protocol::ViewId;
use crate::text::{byte_len, chars_of, numbers_key};
use vstd::layout::size_of;
use vstd::prelude::*;

verus! {

/// What a session knows of one of its sources.
#[verifier::ext_equal]
pub struct SourceStatus {
    pub key: CompletionSourceKey,
    pub version: Option<SourceBatchVersion>,
    pub next_sequence: u32,
    pub chunks: Seq<Seq<CompletionItem>>,
    pub item_count: int,
    pub item_heap_bytes: int,
    pub pending: bool,
    pub final_batch: bool,
    pub timed_out: bool,
    pub failed: bool,
    pub incomplete: IncompleteDirections,
}

/// Everything that a session holds.
#[verifier::ext_equal]
pub struct SessionModel {
    pub request: CompletionRequest,
    pub sources: Seq<SourceStatus>,
    pub matched: Seq<Match>,
    pub selected: Option<CandidateId>,
    pub resolved: Option<(CandidateId, ResolveData)>,
    pub item_count: int,
    pub item_heap_bytes: int,
}

/// How much room the collections of a session have at some moment.
pub struct Capacities {
    pub source_order: int,
    pub sources: int,
    pub chunks: Seq<int>,
    pub matched: int,
}

/// The items of all chunks, one after the other.
pub open spec fn all_items(chunks: Seq<Seq<CompletionItem>>) -> Seq<CompletionItem>
    decreases chunks.len(),
{
    if chunks.len() == 0 {
        Seq::empty()
    } else {
        all_items(chunks.drop_last()) + chunks.last()
    }
}

/// A source that has delivered nothing yet.
pub open spec fn fresh_source(key: CompletionSourceKey) -> SourceStatus {
    SourceStatus {
        key,
        version: None,
        next_sequence: 0,
        chunks: Seq::empty(),
        item_count: 0,
        item_heap_bytes: 0,
        pending: true,
        final_batch: false,
        timed_out: false,
        failed: false,
        incomplete: IncompleteDirections { forward: false, backward: false },
    }
}

/// A session that waits for all its sources.
pub open spec fn fresh_session(
    request: CompletionRequest,
    sources: Seq<CompletionSourceKey>,
) -> SessionModel {
    SessionModel {
        request,
        sources: sources.map_values(|key: CompletionSourceKey| fresh_source(key)),
        matched: Seq::empty(),
        selected: None,
        resolved: None,
        item_count: 0,
        item_heap_bytes: 0,
    }
}

/// Where the source of that name stands among the sources.
pub open spec fn source_index(sources: Seq<SourceStatus>, name: Seq<char>) -> Option<int> {
    if exists|i: int| is_source(sources, name, i) {
        Some(choose|i: int| is_source(sources, name, i))
    } else {
        None
    }
}

/// The source of that name stands at index `i`.
pub open spec fn is_source(sources: Seq<SourceStatus>, name: Seq<char>, i: int) -> bool {
    0 <= i < sources.len() && sources[i].key.name() == name
}

/// No two sources have the same name.
pub open spec fn names_differ(sources: Seq<SourceStatus>) -> bool {
    forall|i: int, j: int|
        0 <= i < j < sources.len() ==> (#[trigger] sources[i]).key.name() != (
        #[trigger] sources[j]).key.name()
}

/// The item that an identity names: it belongs to the version that its source holds now.
pub open spec fn item_of(sources: Seq<SourceStatus>, id: CandidateId) -> Option<CompletionItem> {
    match source_index(sources, id.source.name()) {
        Some(i) => if sources[i].version == Some(id.batch) && id.ordinal < all_items(
            sources[i].chunks,
        ).len() {
            Some(all_items(sources[i].chunks)[id.ordinal as int])
        } else {
            None
        },
        None => None,
    }
}

/// The identity of item `ordinal` of a source that holds version `batch`.
pub open spec fn item_id(
    source: SourceStatus,
    batch: SourceBatchVersion,
    ordinal: int,
) -> CandidateId {
    CandidateId { source: source.key, batch, ordinal: ordinal as usize }
}

/// What one source puts forward for matching.
pub open spec fn source_offers(source: SourceStatus, place: int) -> Seq<Offer> {
    match source.version {
        Some(batch) => Seq::new(
            all_items(source.chunks).len(),
            |ordinal: int|
                Offer {
                    id: item_id(source, batch, ordinal),
                    item: all_items(source.chunks)[ordinal],
                    source_order: place,
                },
        ),
        None => Seq::empty(),
    }
}

/// What all sources put forward for matching, source by source.
pub open spec fn all_offers(sources: Seq<SourceStatus>) -> Seq<Offer>
    decreases sources.len(),
{
    if sources.len() == 0 {
        Seq::empty()
    } else {
        all_offers(sources.drop_last()) + source_offers(sources.last(), sources.len() - 1)
    }
}

/// Where the candidate first stands in the list.
pub open spec fn candidate_index(matched: Seq<Match>, id: CandidateId) -> Option<int>
    decreases matched.len(),
{
    if matched.len() == 0 {
        None
    } else {
        match candidate_index(matched.drop_last(), id) {
            Some(i) => Some(i),
            None => if matched.last().id.is(id) {
                Some(matched.len() - 1)
            } else {
                None
            },
        }
    }
}

/// Where the selected candidate stands in the list.
pub open spec fn selected_index(session: SessionModel) -> Option<int> {
    match session.selected {
        Some(id) => candidate_index(session.matched, id),
        None => None,
    }
}

/// The list after the items have changed. The selected candidate stays on it, at the end, where
/// its item is still there but did not make it among the best.
pub open spec fn list_after(session: SessionModel, limit: int) -> Seq<Match> {
    let query = chars_of(session.request.asked().query);
    let best = best_matches(query, all_offers(session.sources), limit);
    match selected_index(session) {
        Some(i) => {
            let pinned = session.matched[i];
            if item_of(session.sources, pinned.id) is Some && candidate_index(
                best,
                pinned.id,
            ) is None && limit > 0 {
                if best.len() == limit {
                    best.drop_last().push(pinned)
                } else {
                    best.push(pinned)
                }
            } else {
                best
            }
        },
        None => best,
    }
}

/// The selection after the list has become `matched`: it stays where its candidate is still
/// listed, and the first candidate is selected where the list was empty before.
pub open spec fn selection_after(session: SessionModel, matched: Seq<Match>) -> Option<
    CandidateId,
> {
    match session.selected {
        Some(id) => if candidate_index(matched, id) is Some {
            Some(id)
        } else {
            None
        },
        None => if session.matched.len() == 0 && matched.len() > 0 {
            Some(matched[0].id)
        } else {
            None
        },
    }
}

/// Both are the same candidate, or there is none.
pub open spec fn same_choice(selected: Option<CandidateId>, id: CandidateId) -> bool {
    selected is Some && selected->0.is(id)
}

/// What was resolved, as long as it belongs to the selected candidate.
pub open spec fn resolution_after(
    resolved: Option<(CandidateId, ResolveData)>,
    selected: Option<CandidateId>,
) -> Option<(CandidateId, ResolveData)> {
    match resolved {
        Some((id, data)) => if same_choice(selected, id) {
            resolved
        } else {
            None
        },
        None => None,
    }
}

/// The session after its items have changed.
pub open spec fn recomputed(session: SessionModel, limit: int) -> SessionModel {
    let matched = list_after(session, limit);
    let selected = selection_after(session, matched);
    SessionModel {
        matched,
        selected,
        resolved: resolution_after(session.resolved, selected),
        ..session
    }
}

/// The index that a move leads to, from `current` in a list of `length` candidates.
pub open spec fn moved_index(current: Option<int>, length: int, movement: SelectionMove) -> Option<
    int,
> {
    if length == 0 {
        None
    } else {
        match movement {
            SelectionMove::Next => match current {
                Some(i) => if i + 1 < length {
                    Some(i + 1)
                } else {
                    Some(0)
                },
                None => Some(0),
            },
            SelectionMove::Previous => match current {
                Some(i) => if i > 0 {
                    Some(i - 1)
                } else {
                    Some(length - 1)
                },
                None => Some(length - 1),
            },
            SelectionMove::First => Some(0),
            SelectionMove::Clear => None,
        }
    }
}

/// The session after the selection has moved; what was resolved is dropped.
pub open spec fn moved(session: SessionModel, movement: SelectionMove) -> SessionModel {
    let next = moved_index(selected_index(session), session.matched.len() as int, movement);
    SessionModel {
        selected: match next {
            Some(i) => Some(session.matched[i].id),
            None => None,
        },
        resolved: None,
        ..session
    }
}

/// The bytes that the names of the sources take.
pub open spec fn name_bytes(sources: Seq<SourceStatus>) -> int
    decreases sources.len(),
{
    if sources.len() == 0 {
        0
    } else {
        name_bytes(sources.drop_last()) + byte_len(sources.last().key.name())
    }
}

/// The bytes that room for `capacity` chunks takes.
pub open spec fn chunk_room(capacity: int) -> int {
    capacity * size_of::<Box<[CompletionItem]>>()
}

/// The bytes that room for all chunks takes.
pub open spec fn chunk_bytes(capacities: Seq<int>) -> int
    decreases capacities.len(),
{
    if capacities.len() == 0 {
        0
    } else {
        chunk_bytes(capacities.drop_last()) + chunk_room(capacities.last())
    }
}

/// The bytes that the match positions of the list take.
pub open spec fn position_bytes(matched: Seq<Match>) -> int
    decreases matched.len(),
{
    if matched.len() == 0 {
        0
    } else {
        position_bytes(matched.drop_last()) + matched.last().positions.len() * size_of::<usize>()
    }
}

/// The bytes that a session takes besides its items, its list and what was resolved.
pub open spec fn base_bytes(session: SessionModel, room: Capacities) -> int {
    size_of::<Session>() + seed_heap_bytes(session.request.model().seed) + room.source_order
        * size_of::<CompletionSourceKey>() + room.sources * (size_of::<CompletionSourceKey>()
        + size_of::<SourceState>()) + name_bytes(session.sources) + chunk_bytes(room.chunks)
}

/// The bytes that the list takes.
pub open spec fn list_bytes(session: SessionModel, room: Capacities) -> int {
    room.matched * size_of::<Matched>() + position_bytes(session.matched)
}

/// The bytes that what was resolved takes.
pub open spec fn resolved_bytes(session: SessionModel) -> int {
    match session.resolved {
        Some((_, data)) => capped(resolve_heap_bytes(data)),
        None => 0,
    }
}

/// An estimate of the bytes that a session takes.
pub open spec fn estimated_bytes(session: SessionModel, room: Capacities) -> int {
    capped(
        base_bytes(session, room) + session.item_heap_bytes + list_bytes(session, room)
            + resolved_bytes(session),
    )
}

/// An estimate of the bytes that a session may take with a full list, `item_bytes` of them for
/// its items.
pub open spec fn upper_bound_bytes(
    session: SessionModel,
    room: Capacities,
    item_bytes: int,
    visible_items: int,
) -> int {
    capped(
        base_bytes(session, room) + item_bytes + list_bytes(session, room) + visible_items * (
        size_of::<Matched>() + chars_of(session.request.asked().query).len() * size_of::<usize>())
            + resolved_bytes(session),
    )
}

/// A collection has room for what it holds.
pub open spec fn has_room(session: SessionModel, room: Capacities) -> bool {
    &&& session.sources.len() <= room.source_order <= usize::MAX
    &&& session.sources.len() <= room.sources <= usize::MAX
    &&& room.chunks.len() == session.sources.len()
    &&& forall|i: int|
        0 <= i < room.chunks.len() ==> session.sources[i].chunks.len() <= #[trigger] room.chunks[i]
            <= usize::MAX
    &&& session.matched.len() <= room.matched <= usize::MAX
}

/// The difference of two counts, or zero.
pub open spec fn less(count: int, taken: int) -> int {
    if count < taken {
        0
    } else {
        count - taken
    }
}

/// The larger of two numbers.
pub open spec fn larger(a: int, b: int) -> int {
    if a < b {
        b
    } else {
        a
    }
}

/// The bytes that the items take together.
pub open spec fn items_bytes(items: Seq<CompletionItem>) -> int
    decreases items.len(),
{
    if items.len() == 0 {
        0
    } else {
        items_bytes(items.drop_last()) + item_heap_bytes(items.last())
    }
}

/// Some item has a string of more than `limit` bytes.
pub open spec fn some_item_longer_than(items: Seq<CompletionItem>, limit: usize) -> bool {
    exists|i: int| 0 <= i < items.len() && some_longer_than(item_texts(#[trigger] items[i]), limit)
}

/// A batch comes in order: a replacement carries a newer version, an addition the version and the
/// sequence number that are due.
pub open spec fn in_order(source: SourceStatus, batch: CompletionBatch) -> bool {
    match batch.kind {
        CompletionBatchKind::Replace => match source.version {
            Some(version) => batch.version.0 > version.0,
            None => true,
        },
        CompletionBatchKind::Append { sequence } => source.version == Some(batch.version)
            && sequence == source.next_sequence,
    }
}

/// A batch is too large by itself.
pub open spec fn oversized(batch: CompletionBatch, limits: CompletionLimits) -> bool {
    ||| batch.items@.len() > limits.max_source_items
    ||| capped(items_bytes(batch.items@)) > limits.max_batch_bytes
    ||| some_item_longer_than(batch.items@, limits.max_string_bytes)
}

/// The sequence number after `sequence`.
pub open spec fn sequence_after(sequence: u32) -> u32 {
    if sequence == u32::MAX {
        0
    } else {
        (sequence + 1) as u32
    }
}

/// A source once a batch has been installed.
pub open spec fn filled(source: SourceStatus, batch: CompletionBatch) -> SourceStatus {
    let items = batch.items@;
    let bytes = capped(items_bytes(items));
    let delivered = match batch.kind {
        CompletionBatchKind::Replace => SourceStatus {
            version: Some(batch.version),
            next_sequence: 1,
            chunks: seq![items],
            item_count: items.len() as int,
            item_heap_bytes: bytes,
            ..source
        },
        CompletionBatchKind::Append { .. } => SourceStatus {
            next_sequence: sequence_after(source.next_sequence),
            chunks: source.chunks.push(items),
            item_count: capped(source.item_count + items.len()),
            item_heap_bytes: capped(source.item_heap_bytes + bytes),
            ..source
        },
    };
    SourceStatus {
        pending: !batch.is_final,
        final_batch: batch.is_final,
        incomplete: batch.incomplete,
        ..delivered
    }
}

/// The bytes that the chunks of a source take once a batch has been installed: room that runs out
/// doubles, and starts at four.
pub open spec fn chunk_room_after(
    source: SourceStatus,
    batch: CompletionBatch,
    capacity: int,
) -> int {
    match batch.kind {
        CompletionBatchKind::Replace => capped(chunk_room(1)),
        CompletionBatchKind::Append { .. } => if source.chunks.len() < capacity {
            capped(chunk_room(capacity))
        } else {
            capped(chunk_room(larger(capacity, 2) * 2))
        },
    }
}

/// The items of the session once source `i` is replaced by `next`.
pub open spec fn counted(session: SessionModel, i: int, next: SourceStatus) -> SessionModel {
    SessionModel {
        sources: session.sources.update(i, next),
        item_count: capped(
            less(session.item_count, session.sources[i].item_count) + next.item_count,
        ),
        item_heap_bytes: capped(
            less(session.item_heap_bytes, session.sources[i].item_heap_bytes)
                + next.item_heap_bytes,
        ),
        ..session
    }
}

/// Installing a batch of source `i` would take the session over its limits.
pub open spec fn overfull(
    session: SessionModel,
    limits: CompletionLimits,
    i: int,
    batch: CompletionBatch,
    room: Capacities,
) -> bool {
    let source = session.sources[i];
    let next = filled(source, batch);
    let after = counted(session, i, next);
    ||| next.item_count > limits.max_source_items
    ||| capped(next.chunks.len() as int) > limits.max_source_batches
    ||| after.item_count > limits.max_session_items
    ||| capped(
        less(
            upper_bound_bytes(session, room, 0, limits.visible_items as int),
            capped(chunk_room(room.chunks[i])),
        ) + chunk_room_after(source, batch, room.chunks[i]) + after.item_heap_bytes,
    ) > limits.max_session_bytes
}

/// A source that delivers nothing more because of a fault.
pub open spec fn faulted(source: SourceStatus) -> SourceStatus {
    SourceStatus { pending: false, failed: true, ..source }
}

/// The session with source `i` replaced by `next`, nothing else changed.
pub open spec fn with_source(session: SessionModel, i: int, next: SourceStatus) -> SessionModel {
    SessionModel { sources: session.sources.update(i, next), ..session }
}

/// A session and what its caller has to do; no session where it has ended.
pub struct Step {
    pub session: Option<SessionModel>,
    pub effects: Seq<CompletionEffect>,
}

/// The event had no effect, for that reason.
pub open spec fn ignored_effects(view: ViewId, reason: &'static str) -> Seq<CompletionEffect> {
    seq![CompletionEffect::Ignored { view: Some(view), reason }]
}

/// The event was refused, for that reason.
pub open spec fn rejected_effects(view: ViewId, reason: &'static str) -> Seq<CompletionEffect> {
    seq![CompletionEffect::Rejected { view: Some(view), reason }]
}

/// A source is reported, stopped and the view drawn again.
pub open spec fn fault_effects(key: SourceRequestKey, reason: &'static str) -> Seq<
    CompletionEffect,
> {
    seq![
        CompletionEffect::SourceFailed { key, reason },
        CompletionEffect::CancelSource(key),
        CompletionEffect::ViewChanged(key.model().view),
    ]
}

/// Only the view has to be drawn again.
pub open spec fn changed_effects(view: ViewId) -> Seq<CompletionEffect> {
    seq![CompletionEffect::ViewChanged(view)]
}

/// The session stays as it is, and the event is ignored.
pub open spec fn unchanged(session: SessionModel, view: ViewId, reason: &'static str) -> Step {
    Step { session: Some(session), effects: ignored_effects(view, reason) }
}

/// What a batch does to the session of its view.
pub open spec fn batch_step(
    session: SessionModel,
    limits: CompletionLimits,
    batch: CompletionBatch,
    room: Capacities,
) -> Step {
    let key = batch.key.model();
    if session.request.task() != key.task {
        unchanged(session, key.view, "stale request identity")
    } else {
        match source_index(session.sources, key.source.name()) {
            None => unchanged(session, key.view, "inactive source"),
            Some(i) => {
                let source = session.sources[i];
                if source.timed_out {
                    unchanged(session, key.view, "source timed out")
                } else if source.final_batch || source.failed {
                    unchanged(session, key.view, "source already completed")
                } else if !in_order(source, batch) {
                    unchanged(session, key.view, "out-of-order source batch")
                } else if oversized(batch, limits) {
                    Step {
                        session: Some(with_source(session, i, faulted(source))),
                        effects: fault_effects(batch.key, "source batch limit exceeded"),
                    }
                } else if overfull(session, limits, i, batch, room) {
                    Step {
                        session: Some(with_source(session, i, faulted(source))),
                        effects: fault_effects(batch.key, "session limit exceeded"),
                    }
                } else {
                    Step {
                        session: Some(
                            recomputed(
                                counted(session, i, filled(source, batch)),
                                limits.visible_items as int,
                            ),
                        ),
                        effects: changed_effects(key.view),
                    }
                }
            },
        }
    }
}

/// How the work of a source can end, besides with its last batch.
pub enum SourceEnd {
    Completed,
    Failed,
    TimedOut,
}

/// A source whose work has ended.
pub open spec fn ended(source: SourceStatus, end: SourceEnd) -> SourceStatus {
    match end {
        SourceEnd::Completed => SourceStatus { pending: false, final_batch: true, ..source },
        SourceEnd::Failed => SourceStatus { pending: false, failed: true, ..source },
        SourceEnd::TimedOut => SourceStatus { pending: false, timed_out: true, ..source },
    }
}

/// What the end of the work of a source does to the session of its view.
pub open spec fn end_step(session: SessionModel, key: SourceKeyModel, end: SourceEnd) -> Step {
    if session.request.task() != key.task {
        unchanged(
            session,
            key.view,
            if end is TimedOut {
                "stale timeout"
            } else {
                "stale request identity"
            },
        )
    } else {
        match source_index(session.sources, key.source.name()) {
            None => unchanged(session, key.view, "inactive source"),
            Some(i) => {
                let source = session.sources[i];
                if !(end is TimedOut) && (source.timed_out || source.failed || source.final_batch) {
                    unchanged(session, key.view, "source already completed")
                } else {
                    Step {
                        session: Some(with_source(session, i, ended(source, end))),
                        effects: changed_effects(key.view),
                    }
                }
            },
        }
    }
}

/// What a move does to the session of its view.
pub open spec fn move_step(session: SessionModel, view: ViewId, movement: SelectionMove) -> Step {
    let after = moved(session, movement);
    Step {
        session: Some(after),
        effects: seq![
            CompletionEffect::SelectionChanged(
                CompletionSelectionChange {
                    view,
                    candidate: after.selected,
                    visible_index: match selected_index(after) {
                        Some(i) => Some(i as usize),
                        None => None,
                    },
                },
            ),
        ],
    }
}

/// The source of the candidate can still be asked about it.
pub open spec fn resolvable(session: SessionModel, id: CandidateId) -> bool {
    match source_index(session.sources, id.source.name()) {
        Some(i) => !session.sources[i].failed && !session.sources[i].timed_out,
        None => false,
    }
}

/// What a request to resolve the selected candidate does.
pub open spec fn resolve_step(session: SessionModel, view: ViewId) -> Step {
    match session.selected {
        None => unchanged(session, view, "no selected candidate"),
        Some(candidate) => if !resolvable(session, candidate) {
            unchanged(session, view, "selected source unavailable for resolve")
        } else {
            Step {
                session: Some(session),
                effects: seq![
                    CompletionEffect::RequestResolve(
                        ResolveRequestKey { task: session.request.task(), view, candidate },
                    ),
                ],
            }
        },
    }
}

/// The source of a candidate faulted while it resolved the candidate.
pub open spec fn resolve_fault(
    session: SessionModel,
    candidate: CandidateId,
    reason: &'static str,
) -> Step {
    Step {
        session: Some(
            match source_index(session.sources, candidate.source.name()) {
                Some(i) => with_source(session, i, faulted(session.sources[i])),
                None => session,
            },
        ),
        effects: fault_effects(
            SourceRequestKey::of(
                SourceKeyModel {
                    view: session.request.asked().view,
                    task: session.request.task(),
                    source: candidate.source,
                },
            ),
            reason,
        ),
    }
}

/// What resolve data does to the session of its view.
pub open spec fn resolved_step(
    session: SessionModel,
    limits: CompletionLimits,
    key: ResolveRequestKey,
    data: ResolveData,
    room: Capacities,
) -> Step {
    if session.request.task() != key.task || !same_choice(session.selected, key.candidate)
        || candidate_index(session.matched, key.candidate) is None || !resolvable(
        session,
        key.candidate,
    ) {
        unchanged(session, key.view, "stale resolve result")
    } else if some_longer_than(resolve_texts(data), limits.max_string_bytes) {
        resolve_fault(session, key.candidate, "resolve string limit exceeded")
    } else if capped(
        less(estimated_bytes(session, room), resolved_bytes(session)) + capped(
            resolve_heap_bytes(data),
        ),
    ) > limits.max_session_bytes {
        resolve_fault(session, key.candidate, "resolve session limit exceeded")
    } else {
        Step {
            session: Some(SessionModel { resolved: Some((key.candidate, data)), ..session }),
            effects: changed_effects(key.view),
        }
    }
}

/// What accepting the selected candidate does: the session stays until the acceptance is
/// committed.
pub open spec fn accept_step(session: SessionModel, view: ViewId) -> Step {
    match session.selected {
        None => unchanged(session, view, "no selected candidate"),
        Some(candidate) => match item_of(session.sources, candidate) {
            None => unchanged(session, view, "selected candidate disappeared"),
            Some(item) => Step {
                session: Some(session),
                effects: seq![
                    CompletionEffect::Accept(
                        CompletionAcceptance {
                            task: session.request.task(),
                            view,
                            content: session.request.asked().content,
                            content_revision: session.request.asked().content_revision,
                            view_revision: session.request.asked().view_revision,
                            selection: session.request.asked().selection,
                            candidate,
                            range: match item.insert_range {
                                Some(range) => range,
                                None => session.request.asked().range,
                            },
                            text: item.insert_text,
                        },
                    ),
                ],
            },
        },
    }
}

/// Stops every source that is still at work, in the order of the sources.
pub open spec fn cancel_effects(
    request: CompletionRequest,
    sources: Seq<SourceStatus>,
) -> Seq<CompletionEffect>
    decreases sources.len(),
{
    if sources.len() == 0 {
        Seq::empty()
    } else {
        let before = cancel_effects(request, sources.drop_last());
        if sources.last().pending {
            before.push(
                CompletionEffect::CancelSource(
                    SourceRequestKey::of(
                        SourceKeyModel {
                            view: request.asked().view,
                            task: request.task(),
                            source: sources.last().key,
                        },
                    ),
                ),
            )
        } else {
            before
        }
    }
}

/// The session ends.
pub open spec fn end_session(session: SessionModel, view: ViewId) -> Step {
    Step {
        session: None,
        effects: cancel_effects(session.request, session.sources) + changed_effects(view),
    }
}

/// What the commit of an acceptance does to the session of its view.
pub open spec fn commit_step(
    session: SessionModel,
    view: ViewId,
    task: CompletionTaskKey,
    candidate: CandidateId,
) -> Step {
    if session.request.task() == task && same_choice(session.selected, candidate) {
        end_session(session, view)
    } else {
        unchanged(session, view, "stale acceptance commit")
    }
}

/// The keys of the sources, in their order.
pub open spec fn keys_of(sources: Seq<SourceStatus>) -> Seq<CompletionSourceKey> {
    sources.map_values(|source: SourceStatus| source.key)
}

/// The source has more to offer than it delivered.
pub open spec fn has_more(source: SourceStatus) -> bool {
    source.incomplete.forward || source.incomplete.backward
}

/// How many sources failed or timed out.
pub open spec fn fault_count(sources: Seq<SourceStatus>) -> int
    decreases sources.len(),
{
    if sources.len() == 0 {
        0
    } else {
        fault_count(sources.drop_last()) + if sources.last().failed || sources.last().timed_out {
            1int
        } else {
            0
        }
    }
}

/// The query was held against the label itself.
pub open spec fn filters_by_label(item: CompletionItem) -> bool {
    match item.filter_text {
        Some(text) => chars_of(text) == chars_of(item.label),
        None => true,
    }
}

/// How a frontend sees a candidate: match positions are shown where they are those of the label.
pub open spec fn shows_candidate(
    candidate: CompletionCandidate,
    matched: Match,
    item: CompletionItem,
) -> bool {
    &&& candidate.id == matched.id
    &&& candidate.label == item.label
    &&& candidate.detail == item.detail
    &&& candidate.kind == item.kind
    &&& candidate.group == item.group
    &&& candidate.deprecated == item.deprecated
    &&& numbers_key((*candidate.match_positions)@) == if filters_by_label(item) {
        matched.positions
    } else {
        Seq::empty()
    }
}

/// How a frontend sees the list.
pub open spec fn shows_list(
    candidates: Seq<CompletionCandidate>,
    session: SessionModel,
) -> bool {
    &&& candidates.len() == session.matched.len()
    &&& forall|i: int|
        0 <= i < candidates.len() ==> shows_candidate(
            #[trigger] candidates[i],
            session.matched[i],
            item_of(session.sources, session.matched[i].id)->0,
        )
}

/// How a frontend sees a session.
pub open spec fn shows_session(
    snapshot: CompletionSnapshot,
    session: SessionModel,
    room: Capacities,
) -> bool {
    &&& snapshot.request == session.request
    &&& snapshot.sources@ == keys_of(session.sources)
    &&& shows_list(snapshot.candidates@, session)
    &&& snapshot.selected == session.selected
    &&& snapshot.collecting == exists|i: int|
        0 <= i < session.sources.len() && (#[trigger] session.sources[i]).pending
    &&& snapshot.incomplete == exists|i: int|
        0 <= i < session.sources.len() && has_more(#[trigger] session.sources[i])
    &&& snapshot.source_faults == fault_count(session.sources)
    &&& snapshot.resolved == session.resolved
    &&& snapshot.source_count == session.sources.len()
    &&& snapshot.item_count == session.item_count
    &&& snapshot.estimated_heap_bytes == estimated_bytes(session, room)
}

/// Where the items of a chunk stand among all items.
pub proof fn lemma_items_at(chunks: Seq<Seq<CompletionItem>>, k: int, j: int)
    requires
        0 <= k < chunks.len(),
        0 <= j < chunks[k].len(),
    ensures
        all_items(chunks.take(k)).len() + j < all_items(chunks).len(),
        all_items(chunks)[all_items(chunks.take(k)).len() + j] == chunks[k][j],
    decreases chunks.len(),
{
    let shorter = chunks.drop_last();
    if k == chunks.len() - 1 {
        assert(chunks.take(k) =~= shorter);
    } else {
        lemma_items_at(shorter, k, j);
        assert(shorter.take(k) =~= chunks.take(k));
    }
}

/// The items of one chunk more.
pub proof fn lemma_items_take(chunks: Seq<Seq<CompletionItem>>, k: int)
    requires
        0 <= k < chunks.len(),
    ensures
        all_items(chunks.take(k + 1)) == all_items(chunks.take(k)) + chunks[k],
{
    assert(chunks.take(k + 1).drop_last() =~= chunks.take(k));
}

/// A source is found by its name, wherever it stands.
pub proof fn lemma_source_index(sources: Seq<SourceStatus>, name: Seq<char>, i: int)
    requires
        names_differ(sources),
        is_source(sources, name, i),
    ensures
        source_index(sources, name) == Some(i),
{
    let found = choose|j: int| is_source(sources, name, j);
    assert(is_source(sources, name, found));
}

/// The first candidate with that identity is at index `i`.
pub proof fn lemma_candidate_index(matched: Seq<Match>, id: CandidateId, i: int)
    requires
        0 <= i < matched.len(),
        matched[i].id.is(id),
        forall|j: int| 0 <= j < i ==> !(#[trigger] matched[j]).id.is(id),
    ensures
        candidate_index(matched, id) == Some(i),
    decreases matched.len(),
{
    let shorter = matched.drop_last();
    if i < shorter.len() {
        lemma_candidate_index(shorter, id, i);
    } else {
        assert forall|j: int| 0 <= j < shorter.len() implies !(#[trigger] shorter[j]).id.is(id) by {
            assert(shorter[j] == matched[j]);
        }
        lemma_no_candidate(shorter, id);
    }
}

/// No candidate has that identity.
pub proof fn lemma_no_candidate(matched: Seq<Match>, id: CandidateId)
    requires
        forall|j: int| 0 <= j < matched.len() ==> !(#[trigger] matched[j]).id.is(id),
    ensures
        candidate_index(matched, id) is None,
    decreases matched.len(),
{
    if matched.len() > 0 {
        let shorter = matched.drop_last();
        assert forall|j: int| 0 <= j < shorter.len() implies !(#[trigger] shorter[j]).id.is(id) by {
            assert(shorter[j] == matched[j]);
        }
        lemma_no_candidate(shorter, id);
    }
}

/// What is found in a list stands there, and nowhere before.
pub proof fn lemma_candidate_found(matched: Seq<Match>, id: CandidateId)
    ensures
        candidate_index(matched, id) matches Some(i) ==> 0 <= i < matched.len()
            && matched[i].id.is(id),
        candidate_index(matched, id) is None ==> forall|j: int|
            0 <= j < matched.len() ==> !(#[trigger] matched[j]).id.is(id),
    decreases matched.len(),
{
    if matched.len() > 0 {
        let shorter = matched.drop_last();
        lemma_candidate_found(shorter, id);
        if candidate_index(matched, id) is None {
            assert forall|j: int| 0 <= j < matched.len() implies !(
            #[trigger] matched[j]).id.is(id) by {
                if j < shorter.len() {
                    assert(shorter[j] == matched[j]);
                }
            }
        }
    }
}

pub proof fn lemma_product_not_negative(a: int, b: int)
    requires
        a >= 0,
        b >= 0,
    ensures
        a * b >= 0,
{
    assert(a * b >= 0) by (nonlinear_arith)
        requires
            a >= 0,
            b >= 0,
    ;
}

/// Capping a factor first does not change the capped product.
pub proof fn lemma_capped_factor(count: int, size: int)
    requires
        count >= 0,
        size >= 0,
    ensures
        capped(count * capped(size)) == capped(count * size),
{
    let top = usize::MAX as int;
    if size > top && count > 0 {
        assert(count * top >= top) by (nonlinear_arith)
            requires
                count >= 1,
                top >= 0,
        ;
        assert(count * size > count * top) by (nonlinear_arith)
            requires
                count >= 1,
                size > top,
        ;
    }
    if count == 0 {
        assert(count * size == 0) by (nonlinear_arith)
            requires
                count == 0,
        ;
        assert(count * capped(size) == 0) by (nonlinear_arith)
            requires
                count == 0,
        ;
    }
}

pub proof fn lemma_name_bytes_not_negative(sources: Seq<SourceStatus>)
    ensures
        name_bytes(sources) >= 0,
    decreases sources.len(),
{
    if sources.len() > 0 {
        lemma_name_bytes_not_negative(sources.drop_last());
    }
}

pub proof fn lemma_position_bytes_not_negative(matched: Seq<Match>)
    ensures
        position_bytes(matched) >= 0,
    decreases matched.len(),
{
    if matched.len() > 0 {
        lemma_position_bytes_not_negative(matched.drop_last());
        lemma_product_not_negative(
            matched.last().positions.len() as int,
            size_of::<usize>() as int,
        );
    }
}

pub proof fn lemma_chunk_bytes_not_negative(capacities: Seq<int>)
    requires
        forall|i: int| 0 <= i < capacities.len() ==> 0 <= #[trigger] capacities[i],
    ensures
        chunk_bytes(capacities) >= 0,
    decreases capacities.len(),
{
    if capacities.len() > 0 {
        let shorter = capacities.drop_last();
        assert forall|i: int| 0 <= i < shorter.len() implies 0 <= #[trigger] shorter[i] by {
            assert(shorter[i] == capacities[i]);
        }
        lemma_chunk_bytes_not_negative(shorter);
        lemma_product_not_negative(
            capacities.last(),
            size_of::<Box<[CompletionItem]>>() as int,
        );
    }
}

/// No part of an estimate is negative.
pub proof fn lemma_bytes_not_negative(session: SessionModel, room: Capacities)
    requires
        room.source_order >= 0,
        room.sources >= 0,
        room.matched >= 0,
        forall|i: int| 0 <= i < room.chunks.len() ==> 0 <= #[trigger] room.chunks[i],
    ensures
        base_bytes(session, room) >= 0,
        list_bytes(session, room) >= 0,
        resolved_bytes(session) >= 0,
{
    lemma_name_bytes_not_negative(session.sources);
    lemma_position_bytes_not_negative(session.matched);
    lemma_chunk_bytes_not_negative(room.chunks);
    lemma_product_not_negative(room.matched, size_of::<Matched>() as int);
    lemma_product_not_negative(room.source_order, size_of::<CompletionSourceKey>() as int);
    lemma_product_not_negative(
        room.sources,
        (size_of::<CompletionSourceKey>() + size_of::<SourceState>()) as int,
    );
}

} // verus!
