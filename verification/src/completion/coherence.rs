//! What holds of every session between events, and that every event keeps it.

use crate::completion::fuzzy::match_positions;
use crate::completion::matcher::{
    best_matches, candidates_differ, filter_of, law_candidates_differ, law_candidates_match,
    law_list_holds_the_best, offers_differ, Match, Offer,
};
use crate::completion::model::{
    CandidateId, CompletionBatch, CompletionItem, CompletionLimits, ResolveData, ResolveRequestKey,
    SelectionMove, SourceKeyModel,
};
use crate::completion::state::{
    all_items, all_offers, batch_step, candidate_index, chunk_room_after, counted, end_step, ended,
    faulted, filled, in_order, is_source, item_id, item_of, items_bytes, larger,
    lemma_candidate_found, lemma_product_not_negative, lemma_source_index, moved, moved_index,
    names_differ, overfull, oversized, recomputed, resolved_step, same_choice, selected_index,
    source_index, source_offers, with_source, Capacities, SessionModel, SourceEnd, SourceStatus,
};
use crate::measure::capped;
use crate::text::chars_of;
use vstd::layout::size_of;
use vstd::prelude::*;

verus! {

/// What holds of one source.
pub open spec fn source_coherent(source: SourceStatus) -> bool {
    &&& source.pending == !(source.final_batch || source.timed_out || source.failed)
    &&& source.version is None <==> source.chunks.len() == 0
    &&& source.version is None ==> source.next_sequence == 0
    &&& source.item_count == capped(all_items(source.chunks).len() as int)
    &&& 0 <= source.item_heap_bytes <= usize::MAX
}

/// The items of all sources together.
pub open spec fn total_count(sources: Seq<SourceStatus>) -> int
    decreases sources.len(),
{
    if sources.len() == 0 {
        0
    } else {
        total_count(sources.drop_last()) + sources.last().item_count
    }
}

/// The bytes of the items of all sources together.
pub open spec fn total_item_bytes(sources: Seq<SourceStatus>) -> int
    decreases sources.len(),
{
    if sources.len() == 0 {
        0
    } else {
        total_item_bytes(sources.drop_last()) + sources.last().item_heap_bytes
    }
}

/// The candidate stands for an item that is there, and matches the query at its positions.
pub open spec fn candidate_coherent(session: SessionModel, candidate: Match) -> bool {
    &&& item_of(session.sources, candidate.id) is Some
    &&& match_positions(
        chars_of(session.request.asked().query),
        filter_of(item_of(session.sources, candidate.id)->0),
    ) == Some(candidate.positions)
}

/// The items of the session can be counted by a machine number.
pub open spec fn countable(session: SessionModel) -> bool {
    all_offers(session.sources).len() <= usize::MAX
}

/// What holds of the list: it is no longer than the limit, its candidates differ and match.
pub open spec fn list_coherent(session: SessionModel, limits: CompletionLimits) -> bool {
    &&& session.matched.len() <= limits.visible_items
    &&& candidates_differ(session.matched)
    &&& forall|i: int|
        0 <= i < session.matched.len() ==> candidate_coherent(
            session,
            #[trigger] session.matched[i],
        )
}

/// What holds of the selection: it is on the list, and only the selected candidate is resolved.
pub open spec fn selection_coherent(session: SessionModel) -> bool {
    &&& session.selected matches Some(id) ==> candidate_index(session.matched, id) is Some
    &&& session.resolved matches Some((id, _)) ==> same_choice(session.selected, id)
}

/// What holds of the counts: they add up, within the limits.
pub open spec fn counts_coherent(session: SessionModel, limits: CompletionLimits) -> bool {
    &&& session.item_count <= limits.max_session_items
    &&& session.item_heap_bytes <= limits.max_session_bytes
    &&& limits.max_session_items < usize::MAX ==> session.item_count == total_count(
        session.sources,
    )
    &&& limits.max_session_bytes < usize::MAX ==> session.item_heap_bytes == total_item_bytes(
        session.sources,
    )
}

/// What holds of every session between events.
pub open spec fn coherent(session: SessionModel, limits: CompletionLimits) -> bool {
    &&& names_differ(session.sources)
    &&& forall|i: int|
        0 <= i < session.sources.len() ==> source_coherent(#[trigger] session.sources[i])
    &&& countable(session)
    &&& list_coherent(session, limits)
    &&& selection_coherent(session)
    &&& counts_coherent(session, limits)
}

/// Where an offer comes from: source `i` puts forward its item `ordinal`.
pub open spec fn offered_by(
    sources: Seq<SourceStatus>,
    offer: Offer,
    i: int,
    ordinal: int,
) -> bool {
    &&& 0 <= i < sources.len()
    &&& sources[i].version is Some
    &&& 0 <= ordinal < all_items(sources[i].chunks).len()
    &&& offer == (Offer {
        id: item_id(sources[i], sources[i].version->0, ordinal),
        item: all_items(sources[i].chunks)[ordinal],
        source_order: i,
    })
}

proof fn lemma_offer_origin(sources: Seq<SourceStatus>, k: int)
    requires
        0 <= k < all_offers(sources).len(),
    ensures
        exists|i: int, ordinal: int| offered_by(sources, all_offers(sources)[k], i, ordinal),
    decreases sources.len(),
{
    let shorter = sources.drop_last();
    let before = all_offers(shorter);
    let offer = all_offers(sources)[k];
    if k < before.len() {
        lemma_offer_origin(shorter, k);
        let (i, ordinal) = choose|i: int, ordinal: int| offered_by(shorter, before[k], i, ordinal);
        assert(offered_by(sources, offer, i, ordinal));
    } else {
        assert(offered_by(sources, offer, sources.len() - 1, k - before.len()));
    }
}

/// Every source has at most as many items as all sources put forward.
proof fn lemma_items_within_offers(sources: Seq<SourceStatus>, i: int)
    requires
        0 <= i < sources.len(),
        sources[i].version is Some,
    ensures
        all_items(sources[i].chunks).len() <= all_offers(sources).len(),
    decreases sources.len(),
{
    if i < sources.len() - 1 {
        lemma_items_within_offers(sources.drop_last(), i);
    }
}

/// An offer names the item that it carries.
proof fn lemma_offer_item(sources: Seq<SourceStatus>, k: int)
    requires
        names_differ(sources),
        all_offers(sources).len() <= usize::MAX,
        0 <= k < all_offers(sources).len(),
    ensures
        item_of(sources, all_offers(sources)[k].id) == Some(all_offers(sources)[k].item),
{
    let offer = all_offers(sources)[k];
    lemma_offer_origin(sources, k);
    let (i, ordinal) = choose|i: int, ordinal: int| offered_by(sources, offer, i, ordinal);
    lemma_items_within_offers(sources, i);
    assert(is_source(sources, offer.id.source.name(), i));
    lemma_source_index(sources, offer.id.source.name(), i);
}

/// No two offers name the same candidate.
proof fn lemma_offers_differ(sources: Seq<SourceStatus>)
    requires
        names_differ(sources),
        all_offers(sources).len() <= usize::MAX,
    ensures
        offers_differ(all_offers(sources)),
    decreases sources.len(),
{
    if sources.len() > 0 {
        let shorter = sources.drop_last();
        let offers = all_offers(sources);
        let before = all_offers(shorter);
        assert forall|i: int, j: int| 0 <= i < j < shorter.len() implies (
        #[trigger] shorter[i]).key.name() != (#[trigger] shorter[j]).key.name() by {
            assert(sources[i].key.name() != sources[j].key.name());
        }
        lemma_offers_differ(shorter);
        assert forall|a: int, b: int| 0 <= a < b < offers.len() implies !(
        #[trigger] offers[a]).id.is((#[trigger] offers[b]).id) by {
            if b < before.len() {
                assert(!before[a].id.is(before[b].id));
            } else if a < before.len() {
                lemma_offer_origin(shorter, a);
                let (i, ordinal) = choose|i: int, ordinal: int|
                    offered_by(shorter, before[a], i, ordinal);
                assert(sources[i].key.name() != sources[sources.len() - 1].key.name());
            }
        }
    }
}

/// A candidate is on a list exactly where it is found there.
proof fn lemma_found_at(matched: Seq<Match>, id: CandidateId, i: int)
    requires
        0 <= i < matched.len(),
        matched[i].id.is(id),
    ensures
        candidate_index(matched, id) is Some,
{
    lemma_candidate_found(matched, id);
}

/// The list after the items have changed is in order again, where the selected candidate, if its
/// item is still there, matches at the positions that it had.
proof fn lemma_recomputed(session: SessionModel, limits: CompletionLimits)
    requires
        names_differ(session.sources),
        countable(session),
        selected_index(session) matches Some(i) ==> (item_of(
            session.sources,
            session.matched[i].id,
        ) is Some ==> candidate_coherent(session, session.matched[i])),
    ensures
        list_coherent(recomputed(session, limits.visible_items as int), limits),
        selection_coherent(recomputed(session, limits.visible_items as int)),
{
    let limit = limits.visible_items as int;
    let query = chars_of(session.request.asked().query);
    let offers = all_offers(session.sources);
    let best = best_matches(query, offers, limit);
    let after = recomputed(session, limit);
    lemma_offers_differ(session.sources);
    law_candidates_differ(query, offers, limit);
    law_list_holds_the_best(query, offers, limit);
    assert forall|i: int| 0 <= i < best.len() implies candidate_coherent(
        after,
        #[trigger] best[i],
    ) by {
        law_candidates_match(query, offers, limit, i);
        let k = choose|k: int|
            0 <= k < offers.len() && (#[trigger] offers[k]).id == best[i].id && match_positions(
                query,
                filter_of(offers[k].item),
            ) == Some(best[i].positions);
        lemma_offer_item(session.sources, k);
    }
    if let Some(at) = selected_index(session) {
        let pinned = session.matched[at];
        lemma_candidate_found(best, pinned.id);
        if item_of(session.sources, pinned.id) is Some && candidate_index(
            best,
            pinned.id,
        ) is None && limit > 0 {
            let kept = if best.len() == limit {
                best.drop_last()
            } else {
                best
            };
            assert(after.matched == kept.push(pinned));
            assert forall|i: int, j: int| 0 <= i < j < after.matched.len() implies !(
            #[trigger] after.matched[i]).id.is((#[trigger] after.matched[j]).id) by {
                assert(after.matched[i] == best[i]);
                if j < kept.len() {
                    assert(after.matched[j] == best[j]);
                }
            }
            assert forall|i: int| 0 <= i < after.matched.len() implies candidate_coherent(
                after,
                #[trigger] after.matched[i],
            ) by {
                if i < kept.len() {
                    assert(after.matched[i] == best[i]);
                }
            }
        }
    }
    if after.matched.len() > 0 {
        lemma_found_at(after.matched, after.matched[0].id, 0);
    }
}

/// The items of a source that only gains items keep their places.
proof fn lemma_append_keeps_items(chunks: Seq<Seq<CompletionItem>>, items: Seq<CompletionItem>)
    ensures
        all_items(chunks.push(items)) == all_items(chunks) + items,
{
    assert(chunks.push(items).drop_last() =~= chunks);
}

/// Replacing one source under its own name keeps where all sources stand.
pub proof fn lemma_same_places(sources: Seq<SourceStatus>, i: int, next: SourceStatus, name: Seq<char>)
    requires
        names_differ(sources),
        0 <= i < sources.len(),
        next.key == sources[i].key,
    ensures
        names_differ(sources.update(i, next)),
        source_index(sources.update(i, next), name) == source_index(sources, name),
{
    let after = sources.update(i, next);
    assert forall|a: int, b: int| 0 <= a < b < after.len() implies (
    #[trigger] after[a]).key.name() != (#[trigger] after[b]).key.name() by {
        assert(sources[a].key.name() != sources[b].key.name());
    }
    if exists|k: int| is_source(sources, name, k) {
        let k = choose|k: int| is_source(sources, name, k);
        assert(is_source(after, name, k));
        lemma_source_index(sources, name, k);
        lemma_source_index(after, name, k);
    } else {
        assert forall|k: int| !is_source(after, name, k) by {
            assert(!is_source(sources, name, k));
        }
    }
}

/// An identity never comes to name another item: a batch that is in order either keeps the items
/// that were there or starts a newer version.
pub proof fn law_identity_is_stable(
    sources: Seq<SourceStatus>,
    i: int,
    batch: CompletionBatch,
    id: CandidateId,
)
    requires
        names_differ(sources),
        0 <= i < sources.len(),
        in_order(sources[i], batch),
        item_of(sources, id) is Some,
        item_of(sources.update(i, filled(sources[i], batch)), id) is Some,
    ensures
        item_of(sources.update(i, filled(sources[i], batch)), id) == item_of(sources, id),
{
    lemma_same_places(sources, i, filled(sources[i], batch), id.source.name());
    if batch.kind is Append {
        lemma_append_keeps_items(sources[i].chunks, batch.items@);
    }
}

/// The sums after one source has been replaced.
proof fn lemma_totals_after(sources: Seq<SourceStatus>, i: int, next: SourceStatus)
    requires
        0 <= i < sources.len(),
    ensures
        total_count(sources.update(i, next)) == total_count(sources) - sources[i].item_count
            + next.item_count,
        total_item_bytes(sources.update(i, next)) == total_item_bytes(sources)
            - sources[i].item_heap_bytes + next.item_heap_bytes,
    decreases sources.len(),
{
    let shorter = sources.drop_last();
    let after = sources.update(i, next);
    if i == sources.len() - 1 {
        assert(after.drop_last() =~= shorter);
    } else {
        lemma_totals_after(shorter, i, next);
        assert(after.drop_last() =~= shorter.update(i, next));
    }
}

/// No source has more than all together.
proof fn lemma_part_of_totals(sources: Seq<SourceStatus>, i: int)
    requires
        0 <= i < sources.len(),
        forall|j: int| 0 <= j < sources.len() ==> source_coherent(#[trigger] sources[j]),
    ensures
        0 <= sources[i].item_count <= total_count(sources),
        0 <= sources[i].item_heap_bytes <= total_item_bytes(sources),
    decreases sources.len(),
{
    let shorter = sources.drop_last();
    assert forall|j: int| 0 <= j < shorter.len() implies source_coherent(#[trigger] shorter[j]) by {
        assert(shorter[j] == sources[j]);
    }
    if i < shorter.len() {
        lemma_part_of_totals(shorter, i);
        assert(source_coherent(sources[sources.len() - 1]));
    } else if shorter.len() > 0 {
        lemma_part_of_totals(shorter, 0);
        assert(source_coherent(sources[i]));
    } else {
        reveal_with_fuel(total_count, 2);
        reveal_with_fuel(total_item_bytes, 2);
        assert(source_coherent(sources[i]));
    }
}

/// A source that keeps its items puts the same forward.
pub proof fn lemma_same_offers(sources: Seq<SourceStatus>, i: int, next: SourceStatus)
    requires
        0 <= i < sources.len(),
        next.key == sources[i].key,
        next.version == sources[i].version,
        next.chunks == sources[i].chunks,
    ensures
        all_offers(sources.update(i, next)) == all_offers(sources),
    decreases sources.len(),
{
    let shorter = sources.drop_last();
    let after = sources.update(i, next);
    if i == sources.len() - 1 {
        assert(after.drop_last() =~= shorter);
        assert(source_offers(next, i) =~= source_offers(sources[i], i));
    } else {
        lemma_same_offers(shorter, i, next);
        assert(after.drop_last() =~= shorter.update(i, next));
    }
}

/// A session stays coherent where a source changes how it stands but keeps its items.
proof fn lemma_standing_keeps_coherence(
    session: SessionModel,
    limits: CompletionLimits,
    i: int,
    next: SourceStatus,
)
    requires
        coherent(session, limits),
        0 <= i < session.sources.len(),
        source_coherent(next),
        next.key == session.sources[i].key,
        next.version == session.sources[i].version,
        next.chunks == session.sources[i].chunks,
        next.item_heap_bytes == session.sources[i].item_heap_bytes,
    ensures
        coherent(with_source(session, i, next), limits),
{
    let after = with_source(session, i, next);
    assert(source_coherent(session.sources[i]));
    lemma_same_offers(session.sources, i, next);
    lemma_totals_after(session.sources, i, next);
    lemma_same_places(session.sources, i, next, session.sources[i].key.name());
    assert forall|j: int| 0 <= j < after.matched.len() implies candidate_coherent(
        after,
        #[trigger] after.matched[j],
    ) by {
        assert(candidate_coherent(session, session.matched[j]));
        lemma_same_places(session.sources, i, next, session.matched[j].id.source.name());
    }
}

/// Every batch keeps the session coherent, as long as its items can be counted.
pub proof fn law_batch_keeps_coherence(
    session: SessionModel,
    limits: CompletionLimits,
    batch: CompletionBatch,
    room: Capacities,
)
    requires
        coherent(session, limits),
        countable(batch_step(session, limits, batch, room).session->0),
    ensures
        batch_step(session, limits, batch, room).session is Some,
        coherent(batch_step(session, limits, batch, room).session->0, limits),
{
    let key = batch.key.model();
    if let Some(i) = source_index(session.sources, key.source.name()) {
        assert(is_source(session.sources, key.source.name(), i));
        let source = session.sources[i];
        assert(source_coherent(source));
        let next = filled(source, batch);
        lemma_standing_keeps_coherence(session, limits, i, faulted(source));
        if session.request.task() == key.task && !source.timed_out && !source.failed
            && !source.final_batch && in_order(source, batch) && !oversized(batch, limits)
            && !overfull(session, limits, i, batch, room) {
            lemma_items_not_negative(batch.items@);
            let middle = counted(session, i, next);
            let after = recomputed(middle, limits.visible_items as int);
            lemma_same_places(session.sources, i, next, key.source.name());
            if batch.kind is Append {
                lemma_append_keeps_items(source.chunks, batch.items@);
            } else {
                reveal_with_fuel(all_items, 2);
                assert(all_items(seq![batch.items@]) =~= batch.items@);
            }
            assert(source_coherent(next));
            lemma_totals_after(session.sources, i, next);
            lemma_part_of_totals(session.sources, i);
            if let Some(at) = selected_index(session) {
                lemma_candidate_found(session.matched, session.selected->0);
                let pinned = session.matched[at];
                assert(candidate_coherent(session, pinned));
                if item_of(middle.sources, pinned.id) is Some {
                    law_identity_is_stable(session.sources, i, batch, pinned.id);
                }
            }
            lemma_recomputed(middle, limits);
            lemma_chunk_room_not_negative(source, batch, room.chunks[i]);
            assert(counts_coherent(after, limits));
        }
    }
}

proof fn lemma_chunk_room_not_negative(
    source: SourceStatus,
    batch: CompletionBatch,
    capacity: int,
)
    ensures
        chunk_room_after(source, batch, capacity) >= 0,
{
    let width = size_of::<Box<[CompletionItem]>>() as int;
    lemma_product_not_negative(1, width);
    lemma_product_not_negative(larger(capacity, 2) * 2, width);
    if source.chunks.len() < capacity {
        lemma_product_not_negative(capacity, width);
    }
}

proof fn lemma_items_not_negative(items: Seq<CompletionItem>)
    ensures
        items_bytes(items) >= 0,
    decreases items.len(),
{
    if items.len() > 0 {
        lemma_items_not_negative(items.drop_last());
    }
}

/// The end of the work of a source keeps the session coherent.
pub proof fn law_end_keeps_coherence(
    session: SessionModel,
    limits: CompletionLimits,
    key: SourceKeyModel,
    end: SourceEnd,
)
    requires
        coherent(session, limits),
    ensures
        end_step(session, key, end).session is Some,
        coherent(end_step(session, key, end).session->0, limits),
{
    if let Some(i) = source_index(session.sources, key.source.name()) {
        assert(is_source(session.sources, key.source.name(), i));
        assert(source_coherent(session.sources[i]));
        lemma_standing_keeps_coherence(session, limits, i, ended(session.sources[i], end));
    }
}

/// Moving the selection keeps the session coherent.
pub proof fn law_move_keeps_coherence(
    session: SessionModel,
    limits: CompletionLimits,
    movement: SelectionMove,
)
    requires
        coherent(session, limits),
    ensures
        coherent(moved(session, movement), limits),
{
    let current = selected_index(session);
    if let Some(id) = session.selected {
        lemma_candidate_found(session.matched, id);
    }
    let after = moved(session, movement);
    if let Some(i) = moved_index(current, session.matched.len() as int, movement) {
        lemma_found_at(session.matched, session.matched[i].id, i);
    }
    assert forall|j: int| 0 <= j < after.matched.len() implies candidate_coherent(
        after,
        #[trigger] after.matched[j],
    ) by {
        assert(candidate_coherent(session, session.matched[j]));
    }
}

/// Resolve data keeps the session coherent.
pub proof fn law_resolution_keeps_coherence(
    session: SessionModel,
    limits: CompletionLimits,
    key: ResolveRequestKey,
    data: ResolveData,
    room: Capacities,
)
    requires
        coherent(session, limits),
    ensures
        resolved_step(session, limits, key, data, room).session is Some,
        coherent(resolved_step(session, limits, key, data, room).session->0, limits),
{
    if let Some(i) = source_index(session.sources, key.candidate.source.name()) {
        assert(is_source(session.sources, key.candidate.source.name(), i));
        assert(source_coherent(session.sources[i]));
        lemma_standing_keeps_coherence(session, limits, i, faulted(session.sources[i]));
    }
    let after = SessionModel { resolved: Some((key.candidate, data)), ..session };
    assert forall|j: int| 0 <= j < after.matched.len() implies candidate_coherent(
        after,
        #[trigger] after.matched[j],
    ) by {
        assert(candidate_coherent(session, session.matched[j]));
    }
}

} // verus!
