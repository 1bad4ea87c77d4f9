//! One completion session: what its sources delivered, the visible list and the selection.

use crate::completion::coherence::{countable, lemma_same_offers};
use crate::completion::matcher::{found_of, match_top_k, offers_of, MatchInput, Matched};
use crate::completion::model::{
    any_longer_than, item_texts, some_longer_than, CandidateId, CompletionAcceptance,
    CompletionBatch, CompletionBatchKind, CompletionCandidate, CompletionEffect, CompletionItem,
    CompletionLimits, CompletionRequest, CompletionSelectionChange, CompletionSnapshot,
    CompletionSourceKey, CompletionTaskKey, IncompleteDirections, ResolveData, ResolveRequestKey,
    SelectionMove, SourceBatchVersion, SourceRequestKey,
};
use crate::completion::state::{
    accept_step, all_items, all_offers, base_bytes, batch_step, cancel_effects, candidate_index,
    changed_effects, chunk_bytes, chunk_room, chunk_room_after, counted, end_step, ended,
    estimated_bytes, fault_count, fault_effects, faulted, filled, fresh_session, fresh_source,
    has_more, has_room, ignored_effects, is_source, item_of, items_bytes, keys_of, larger,
    lemma_bytes_not_negative, lemma_candidate_found, lemma_candidate_index, lemma_capped_factor,
    lemma_items_at, lemma_items_take, lemma_no_candidate, lemma_product_not_negative,
    lemma_source_index, list_after, list_bytes, move_step, moved, name_bytes, names_differ,
    overfull, position_bytes, recomputed, rejected_effects, resolvable, resolve_fault, resolve_step,
    resolved_bytes, resolved_step, same_choice, selected_index, selection_after, shows_candidate,
    shows_list, shows_session, some_item_longer_than, source_index, source_offers,
    upper_bound_bytes, with_source, Capacities, SessionModel, SourceEnd, SourceStatus, Step,
};
use crate::measure::{capped, capped_product};
use crate::protocol::ViewId;
use crate::text::{boxed, numbers_key, same_text, share, share_numbers, share_option};
use std::mem;
use vstd::layout::size_of;
use vstd::prelude::*;
use vstd::string::StrSliceExecFns;

verus! {

/// What a source has delivered and how it stands.
pub struct SourceState {
    version: Option<SourceBatchVersion>,
    next_sequence: u32,
    chunks: Vec<Box<[CompletionItem]>>,
    item_count: usize,
    pending: bool,
    final_batch: bool,
    timed_out: bool,
    failed: bool,
    incomplete: IncompleteDirections,
    item_heap_bytes: usize,
}

/// The state of one completion session.
pub struct Session {
    request: CompletionRequest,
    source_order: Vec<CompletionSourceKey>,
    sources: Vec<SourceState>,
    matched: Vec<Matched>,
    selected: Option<CandidateId>,
    resolved: Option<(CandidateId, ResolveData)>,
    item_count: usize,
    item_heap_bytes: usize,
}

/// How much room the collections of a session have.
pub struct SessionCapacities {
    pub source_order: usize,
    pub sources: usize,
    pub chunks: Vec<usize>,
    pub matched: usize,
}

impl SessionCapacities {
    /// The room as mathematical numbers.
    pub open spec fn model(self) -> Capacities {
        Capacities {
            source_order: self.source_order as int,
            sources: self.sources as int,
            chunks: numbers_key(self.chunks@),
            matched: self.matched as int,
        }
    }
}

/// `Vec::capacity`: the vector has room for at least what it holds. How much more is up to the
/// allocator and is left unsaid.
#[verifier::external_body]
fn capacity_of<T>(elements: &Vec<T>) -> (capacity: usize)
    ensures
        capacity >= elements@.len(),
{
    elements.capacity()
}

impl SourceState {
    fn new() -> (state: Self)
        ensures
            forall|key: CompletionSourceKey| #[trigger] state.status(key) == fresh_source(key),
    {
        let state = SourceState {
            version: None,
            next_sequence: 0,
            chunks: Vec::new(),
            item_count: 0,
            pending: true,
            final_batch: false,
            timed_out: false,
            failed: false,
            incomplete: IncompleteDirections { forward: false, backward: false },
            item_heap_bytes: 0,
        };
        assert forall|key: CompletionSourceKey| #[trigger] state.status(key) == fresh_source(key) by {
            assert(state.status(key).chunks =~= Seq::empty());
        }
        state
    }

    spec fn pieces(self) -> Seq<Seq<CompletionItem>> {
        self.chunks@.map_values(|chunk: Box<[CompletionItem]>| chunk@)
    }

    /// The item at that place among all items.
    fn item(&self, ordinal: usize) -> (item: Option<&CompletionItem>)
        ensures
            item is Some <==> ordinal < all_items(self.pieces()).len(),
            item matches Some(item) ==> *item == all_items(self.pieces())[ordinal as int],
    {
        let ghost pieces = self.pieces();
        let mut rest: usize = ordinal;
        let mut k: usize = 0;
        while k < self.chunks.len()
            invariant
                k <= self.chunks.len(),
                pieces == self.pieces(),
                ordinal == all_items(pieces.take(k as int)).len() + rest,
            decreases self.chunks.len() - k,
        {
            let chunk: &[CompletionItem] = &self.chunks[k];
            assert(chunk@ == pieces[k as int]);
            if rest < chunk.len() {
                proof {
                    lemma_items_at(pieces, k as int, rest as int);
                }
                return Some(&chunk[rest]);
            }
            proof {
                lemma_items_take(pieces, k as int);
            }
            rest = rest - chunk.len();
            k = k + 1;
        }
        assert(pieces.take(pieces.len() as int) =~= pieces);
        None
    }

    /// Puts the items forward for matching.
    fn put_forward<'a>(
        &'a self,
        key: &'a CompletionSourceKey,
        place: usize,
        inputs: &mut Vec<MatchInput<'a>>,
    )
        ensures
            offers_of(final(inputs)@) == offers_of(old(inputs)@) + source_offers(
                self.status(*key),
                place as int,
            ),
    {
        let ghost status = self.status(*key);
        let ghost pieces = self.pieces();
        let ghost offers = source_offers(status, place as int);
        let ghost before = offers_of(inputs@);
        assert(status.chunks == pieces);
        if let Some(batch) = self.version {
            let start = inputs.len();
            let mut k: usize = 0;
            assert(before + offers.take(0) =~= before);
            while k < self.chunks.len()
                invariant
                    k <= self.chunks.len(),
                    pieces == self.pieces(),
                    status == self.status(*key),
                    status.chunks == pieces,
                    self.version == Some(batch),
                    offers == source_offers(status, place as int),
                    start <= inputs.len(),
                    inputs.len() - start == all_items(pieces.take(k as int)).len(),
                    offers_of(inputs@) == before + offers.take(inputs.len() - start),
                decreases self.chunks.len() - k,
            {
                let chunk: &[CompletionItem] = &self.chunks[k];
                assert(chunk@ == pieces[k as int]);
                let mut j: usize = 0;
                while j < chunk.len()
                    invariant
                        k < self.chunks.len(),
                        chunk@ == pieces[k as int],
                        j <= chunk.len(),
                        pieces == self.pieces(),
                        status == self.status(*key),
                        status.chunks == pieces,
                        self.version == Some(batch),
                        offers == source_offers(status, place as int),
                        start <= inputs.len(),
                        inputs.len() - start == all_items(pieces.take(k as int)).len() + j,
                        offers_of(inputs@) == before + offers.take(inputs.len() - start),
                    decreases chunk.len() - j,
                {
                    let ordinal = inputs.len() - start;
                    let input = MatchInput {
                        source: key,
                        batch,
                        ordinal,
                        item: &chunk[j],
                        source_order: place,
                    };
                    let ghost seen = inputs@;
                    inputs.push(input);
                    proof {
                        lemma_items_at(pieces, k as int, j as int);
                        assert(offers[ordinal as int] == input.offer());
                        assert(offers.take(ordinal + 1) =~= offers.take(ordinal as int).push(
                            input.offer(),
                        ));
                        assert(offers_of(inputs@) =~= offers_of(seen).push(input.offer()));
                        assert(offers_of(inputs@) =~= before + offers.take(ordinal + 1));
                    }
                    j = j + 1;
                }
                proof {
                    lemma_items_take(pieces, k as int);
                }
                k = k + 1;
            }
            assert(pieces.take(pieces.len() as int) =~= pieces);
            assert(offers.take(offers.len() as int) =~= offers);
        } else {
            assert(before + offers =~= before);
        }
    }

    /// The state of the source with that key.
    pub closed spec fn status(self, key: CompletionSourceKey) -> SourceStatus {
        SourceStatus {
            key,
            version: self.version,
            next_sequence: self.next_sequence,
            chunks: self.chunks@.map_values(|chunk: Box<[CompletionItem]>| chunk@),
            item_count: self.item_count as int,
            item_heap_bytes: self.item_heap_bytes as int,
            pending: self.pending,
            final_batch: self.final_batch,
            timed_out: self.timed_out,
            failed: self.failed,
            incomplete: self.incomplete,
        }
    }
}

impl Session {
    /// Everything that the session holds.
    pub closed spec fn model(self) -> SessionModel {
        SessionModel {
            request: self.request,
            sources: Seq::new(
                self.sources@.len(),
                |i: int| self.sources@[i].status(self.source_order@[i]),
            ),
            matched: found_of(self.matched@),
            selected: self.selected,
            resolved: self.resolved,
            item_count: self.item_count as int,
            item_heap_bytes: self.item_heap_bytes as int,
        }
    }

    /// There is one state for each source, under a name of its own.
    pub closed spec fn valid(self) -> bool {
        &&& self.source_order@.len() == self.sources@.len()
        &&& names_differ(self.model().sources)
    }
}

/// Where a candidate stands in a list.
fn candidate_position(list: &Vec<Matched>, id: &CandidateId) -> (position: Option<usize>)
    ensures
        match position {
            Some(i) => candidate_index(found_of(list@), *id) == Some(i as int),
            None => candidate_index(found_of(list@), *id) is None,
        },
{
    let ghost found = found_of(list@);
    let mut i: usize = 0;
    while i < list.len()
        invariant
            i <= list.len(),
            found == found_of(list@),
            forall|j: int| 0 <= j < i ==> !(#[trigger] found[j]).id.is(*id),
        decreases list.len() - i,
    {
        assert(found[i as int].id == list@[i as int].id);
        if list[i].id.same(id) {
            proof {
                lemma_candidate_index(found, *id, i as int);
            }
            return Some(i);
        }
        i = i + 1;
    }
    proof {
        lemma_no_candidate(found, *id);
    }
    None
}

impl Session {
    /// A session that waits for all its sources.
    pub fn new(request: CompletionRequest, sources: &Vec<CompletionSourceKey>) -> (session: Self)
        requires
            names_differ(fresh_session(request, sources@).sources),
        ensures
            session.valid(),
            session.model() == fresh_session(request, sources@),
    {
        let mut source_order: Vec<CompletionSourceKey> = Vec::new();
        let mut states: Vec<SourceState> = Vec::new();
        let mut i: usize = 0;
        while i < sources.len()
            invariant
                i <= sources.len(),
                source_order@ =~= sources@.take(i as int),
                states@.len() == i,
                forall|j: int, key: CompletionSourceKey|
                    0 <= j < i ==> (#[trigger] states@[j].status(key)) == fresh_source(key),
            decreases sources.len() - i,
        {
            source_order.push(sources[i].clone());
            states.push(SourceState::new());
            i = i + 1;
        }
        let matched: Vec<Matched> = Vec::new();
        let session = Session {
            request,
            source_order,
            sources: states,
            matched,
            selected: None,
            resolved: None,
            item_count: 0,
            item_heap_bytes: 0,
        };
        assert(session.model() =~= fresh_session(request, sources@));
        session
    }

    /// How much room the collections have right now.
    pub fn capacities(&self) -> (room: SessionCapacities)
        requires
            self.valid(),
        ensures
            has_room(self.model(), room.model()),
    {
        let mut chunks: Vec<usize> = Vec::new();
        let mut i: usize = 0;
        while i < self.sources.len()
            invariant
                i <= self.sources.len(),
                chunks.len() == i,
                forall|j: int|
                    0 <= j < i ==> self.model().sources[j].chunks.len() <= #[trigger] chunks@[j],
            decreases self.sources.len() - i,
        {
            let state = &self.sources[i];
            assert(self.model().sources[i as int].chunks.len() == state.chunks@.len());
            chunks.push(capacity_of(&state.chunks));
            i = i + 1;
        }
        SessionCapacities {
            source_order: capacity_of(&self.source_order),
            sources: capacity_of(&self.sources),
            chunks,
            matched: capacity_of(&self.matched),
        }
    }

    /// Where the source with that name stands.
    fn source_position(&self, key: &CompletionSourceKey) -> (position: Option<usize>)
        requires
            self.valid(),
        ensures
            match position {
                Some(i) => i < self.sources@.len() && source_index(self.model().sources, key.name())
                    == Some(i as int),
                None => source_index(self.model().sources, key.name()) is None,
            },
    {
        let ghost sources = self.model().sources;
        let mut i: usize = 0;
        while i < self.source_order.len()
            invariant
                self.valid(),
                i <= self.source_order.len(),
                sources == self.model().sources,
                forall|j: int| 0 <= j < i ==> !is_source(sources, key.name(), j),
            decreases self.source_order.len() - i,
        {
            assert(sources[i as int].key == self.source_order@[i as int]);
            if self.source_order[i] == *key {
                proof {
                    lemma_source_index(sources, key.name(), i as int);
                }
                return Some(i);
            }
            i = i + 1;
        }
        None
    }

    /// The item that an identity names.
    pub fn item(&self, id: &CandidateId) -> (item: Option<&CompletionItem>)
        requires
            self.valid(),
        ensures
            match item {
                Some(item) => item_of(self.model().sources, *id) == Some(*item),
                None => item_of(self.model().sources, *id) is None,
            },
    {
        let position = self.source_position(&id.source)?;
        let state = &self.sources[position];
        assert(self.model().sources[position as int].chunks == state.pieces());
        if state.version == Some(id.batch) {
            state.item(id.ordinal)
        } else {
            None
        }
    }

    /// Whether the candidate is on the list.
    pub fn candidate_exists(&self, id: &CandidateId) -> (exists_: bool)
        ensures
            exists_ == (candidate_index(self.model().matched, *id) is Some),
    {
        candidate_position(&self.matched, id).is_some()
    }

    /// Whether the source of the candidate can still be asked about it.
    pub fn source_available_for_resolve(&self, id: &CandidateId) -> (available: bool)
        requires
            self.valid(),
        ensures
            available == resolvable(self.model(), *id),
    {
        match self.source_position(&id.source) {
            Some(position) => {
                let state = &self.sources[position];
                assert(self.model().sources[position as int].failed == state.failed);
                !state.failed && !state.timed_out
            },
            None => false,
        }
    }

    /// Puts the items of all sources forward for matching.
    fn inputs(&self) -> (inputs: Vec<MatchInput<'_>>)
        requires
            self.valid(),
        ensures
            offers_of(inputs@) == all_offers(self.model().sources),
    {
        let ghost sources = self.model().sources;
        let mut inputs: Vec<MatchInput<'_>> = Vec::new();
        let mut i: usize = 0;
        assert(offers_of(inputs@) =~= Seq::empty());
        while i < self.sources.len()
            invariant
                self.valid(),
                i <= self.sources.len(),
                sources == self.model().sources,
                offers_of(inputs@) == all_offers(sources.take(i as int)),
            decreases self.sources.len() - i,
        {
            self.sources[i].put_forward(&self.source_order[i], i, &mut inputs);
            assert(sources.take(i + 1).drop_last() =~= sources.take(i as int));
            i = i + 1;
        }
        assert(sources.take(i as int) =~= sources);
        inputs
    }

    /// Whether `id` names the selected candidate.
    fn is_selected(&self, id: &CandidateId) -> (selected: bool)
        ensures
            selected == same_choice(self.model().selected, *id),
    {
        match &self.selected {
            Some(selected) => selected.same(id),
            None => false,
        }
    }

    /// Where the selected candidate stands in the list.
    fn selected_position(&self) -> (position: Option<usize>)
        ensures
            match position {
                Some(i) => selected_index(self.model()) == Some(i as int) && i < self.matched@.len(),
                None => selected_index(self.model()) is None,
            },
    {
        match &self.selected {
            Some(id) => {
                proof {
                    lemma_candidate_found(found_of(self.matched@), *id);
                }
                candidate_position(&self.matched, id)
            },
            None => None,
        }
    }

    /// Brings list, selection and resolution in line with the items.
    pub fn recompute(&mut self, limit: usize)
        requires
            old(self).valid(),
        ensures
            final(self).valid(),
            final(self).model() == recomputed(old(self).model(), limit as int),
            countable(final(self).model()),
    {
        let ghost before = self.model();
        let previous = match self.selected_position() {
            Some(position) => Some(self.matched[position].clone()),
            None => None,
        };
        let was_empty = self.matched.len() == 0;
        let inputs = self.inputs();
        assert(offers_of(inputs@).len() == inputs.len());
        let mut matched = match_top_k(self.request.query(), inputs, limit);
        let ghost best = found_of(matched@);
        if let Some(pinned) = previous {
            assert(before.matched[selected_index(before)->0] == pinned.found());
            if limit > 0 && self.item(&pinned.id).is_some() && candidate_position(
                &matched,
                &pinned.id,
            ).is_none() {
                if matched.len() == limit {
                    matched.pop();
                    assert(found_of(matched@) =~= best.drop_last());
                }
                let ghost kept = found_of(matched@);
                let ghost last = pinned.found();
                matched.push(pinned);
                assert(found_of(matched@) =~= kept.push(last));
            }
        }
        assert(found_of(matched@) == list_after(before, limit as int));
        let selected = match &self.selected {
            Some(id) => if candidate_position(&matched, id).is_some() {
                Some(id.clone())
            } else {
                None
            },
            None => if was_empty && matched.len() > 0 {
                assert(found_of(matched@)[0].id == matched@[0].id);
                Some(matched[0].id.clone())
            } else {
                None
            },
        };
        assert(selected == selection_after(before, list_after(before, limit as int)));
        self.matched = matched;
        self.selected = selected;
        let stale = match &self.resolved {
            Some((id, _)) => !self.is_selected(id),
            None => false,
        };
        if stale {
            self.resolved = None;
        }
        assert(self.model().sources =~= before.sources);
        assert(self.model() =~= recomputed(before, limit as int));
    }

    /// Moves the selection and drops what was resolved.
    pub fn move_selection(&mut self, movement: SelectionMove)
        requires
            old(self).valid(),
        ensures
            final(self).valid(),
            final(self).model() == moved(old(self).model(), movement),
    {
        let ghost before = self.model();
        let current = self.selected_position();
        let length = self.matched.len();
        let next: Option<usize> = if length == 0 {
            None
        } else {
            match movement {
                SelectionMove::Next => match current {
                    Some(index) => if index + 1 < length {
                        Some(index + 1)
                    } else {
                        Some(0)
                    },
                    None => Some(0),
                },
                SelectionMove::Previous => match current {
                    Some(index) => if index > 0 {
                        Some(index - 1)
                    } else {
                        Some(length - 1)
                    },
                    None => Some(length - 1),
                },
                SelectionMove::First => Some(0),
                SelectionMove::Clear => None,
            }
        };
        self.selected = match next {
            Some(index) => {
                assert(before.matched[index as int].id == self.matched@[index as int].id);
                Some(self.matched[index].id.clone())
            },
            None => None,
        };
        self.resolved = None;
        assert(self.model().sources =~= before.sources);
        assert(self.model() =~= moved(before, movement));
    }

    /// The bytes that the list takes.
    fn matched_heap_bytes(&self, room: &SessionCapacities) -> (bytes: usize)
        ensures
            bytes == capped(list_bytes(self.model(), room.model())),
    {
        let ghost found = found_of(self.matched@);
        let mut positions: usize = 0;
        let mut i: usize = 0;
        while i < self.matched.len()
            invariant
                i <= self.matched.len(),
                found == found_of(self.matched@),
                positions == capped(position_bytes(found.take(i as int))),
                position_bytes(found.take(i as int)) >= 0,
            decreases self.matched.len() - i,
        {
            let count = self.matched[i].positions.len();
            let ghost size = size_of::<usize>();
            assert(found.take(i + 1).drop_last() =~= found.take(i as int));
            assert(found[i as int].positions.len() == count);
            assert(count * size >= 0) by (nonlinear_arith)
                requires
                    count >= 0,
                    size >= 0,
            ;
            positions = positions.saturating_add(capped_product(count, mem::size_of::<usize>()));
            i = i + 1;
        }
        assert(found.take(i as int) =~= found);
        let ghost width = size_of::<Matched>();
        assert(room.matched * width >= 0) by (nonlinear_arith)
            requires
                room.matched >= 0,
                width >= 0,
        ;
        capped_product(room.matched, mem::size_of::<Matched>()).saturating_add(positions)
    }

    /// The bytes that the session takes besides its items, its list and what was resolved.
    fn base_heap_bytes(&self, room: &SessionCapacities) -> (bytes: usize)
        requires
            self.valid(),
            room.chunks@.len() == self.model().sources.len(),
        ensures
            bytes == capped(base_bytes(self.model(), room.model())),
    {
        let ghost sources = self.model().sources;
        let ghost spaces = room.model().chunks;
        let mut names: usize = 0;
        let mut chunks: usize = 0;
        let mut i: usize = 0;
        while i < self.source_order.len()
            invariant
                self.valid(),
                i <= self.source_order.len(),
                sources == self.model().sources,
                spaces == room.model().chunks,
                room.chunks@.len() == sources.len(),
                names == capped(name_bytes(sources.take(i as int))),
                name_bytes(sources.take(i as int)) >= 0,
                chunks == capped(chunk_bytes(spaces.take(i as int))),
                chunk_bytes(spaces.take(i as int)) >= 0,
            decreases self.source_order.len() - i,
        {
            assert(sources.take(i + 1).drop_last() =~= sources.take(i as int));
            assert(spaces.take(i + 1).drop_last() =~= spaces.take(i as int));
            assert(sources[i as int].key == self.source_order@[i as int]);
            names = names.saturating_add(self.source_order[i].as_str().len());
            let ghost width = size_of::<Box<[CompletionItem]>>();
            let space = room.chunks[i];
            assert(space * width >= 0) by (nonlinear_arith)
                requires
                    space >= 0,
                    width >= 0,
            ;
            assert(chunk_room(spaces[i as int]) == space * width);
            chunks = chunks.saturating_add(
                capped_product(space, mem::size_of::<Box<[CompletionItem]>>()),
            );
            i = i + 1;
        }
        assert(sources.take(i as int) =~= sources);
        assert(spaces.take(i as int) =~= spaces);
        let key_width = mem::size_of::<CompletionSourceKey>();
        let state_width = mem::size_of::<SourceState>();
        let pair_width = key_width.saturating_add(state_width);
        proof {
            lemma_capped_factor(room.sources as int, key_width + state_width);
            lemma_product_not_negative(room.source_order as int, key_width as int);
            lemma_product_not_negative(room.sources as int, key_width + state_width);
        }
        mem::size_of::<Session>().saturating_add(
            self.request.estimated_heap_bytes(),
        ).saturating_add(capped_product(room.source_order, key_width)).saturating_add(
            capped_product(room.sources, pair_width),
        ).saturating_add(names).saturating_add(chunks)
    }

    /// The bytes that what was resolved takes.
    fn resolved_heap_bytes(&self) -> (bytes: usize)
        ensures
            bytes == resolved_bytes(self.model()),
    {
        match &self.resolved {
            Some((_, data)) => data.estimated_heap_bytes(),
            None => 0,
        }
    }

    /// An estimate of the bytes that the session takes, given the room of its collections.
    pub fn estimated_heap_bytes(&self, room: &SessionCapacities) -> (bytes: usize)
        requires
            self.valid(),
            room.chunks@.len() == self.model().sources.len(),
        ensures
            bytes == estimated_bytes(self.model(), room.model()),
    {
        proof {
            lemma_bytes_not_negative(self.model(), room.model());
        }
        self.base_heap_bytes(room).saturating_add(self.item_heap_bytes).saturating_add(
            self.matched_heap_bytes(room),
        ).saturating_add(self.resolved_heap_bytes())
    }

    /// An estimate of the bytes that the session may take with a full list, given the room of its
    /// collections.
    pub fn estimated_heap_upper_bound(
        &self,
        room: &SessionCapacities,
        item_bytes: usize,
        visible_items: usize,
    ) -> (bytes: usize)
        requires
            self.valid(),
            room.chunks@.len() == self.model().sources.len(),
        ensures
            bytes == upper_bound_bytes(
                self.model(),
                room.model(),
                item_bytes as int,
                visible_items as int,
            ),
    {
        let query = self.request.query();
        let count = query.unicode_len();
        let width = mem::size_of::<Matched>();
        let step = mem::size_of::<usize>();
        let each = width.saturating_add(capped_product(count, step));
        let list = capped_product(visible_items, each);
        proof {
            lemma_product_not_negative(count as int, step as int);
            lemma_capped_factor(visible_items as int, width + count * step);
            lemma_product_not_negative(visible_items as int, width + count * step);
            lemma_bytes_not_negative(self.model(), room.model());
        }
        self.base_heap_bytes(room).saturating_add(item_bytes).saturating_add(
            self.matched_heap_bytes(room),
        ).saturating_add(list).saturating_add(self.resolved_heap_bytes())
    }
}

/// The capped bytes that the items take together.
fn total_bytes(items: &Vec<CompletionItem>) -> (bytes: usize)
    ensures
        bytes == capped(items_bytes(items@)),
        items_bytes(items@) >= 0,
{
    let mut bytes: usize = 0;
    let mut i: usize = 0;
    while i < items.len()
        invariant
            i <= items.len(),
            bytes == capped(items_bytes(items@.take(i as int))),
            items_bytes(items@.take(i as int)) >= 0,
        decreases items.len() - i,
    {
        assert(items@.take(i + 1).drop_last() =~= items@.take(i as int));
        bytes = bytes.saturating_add(items[i].estimated_heap_bytes());
        i = i + 1;
    }
    assert(items@.take(i as int) =~= items@);
    bytes
}

/// Whether some item has a string of more than `limit` bytes.
fn any_item_longer_than(items: &Vec<CompletionItem>, limit: usize) -> (longer: bool)
    ensures
        longer == some_item_longer_than(items@, limit),
{
    let mut i: usize = 0;
    while i < items.len()
        invariant
            i <= items.len(),
            forall|j: int|
                0 <= j < i ==> !some_longer_than(item_texts(#[trigger] items@[j]), limit),
        decreases items.len() - i,
    {
        if any_longer_than(&items[i].strings(), limit) {
            assert(some_longer_than(item_texts(items@[i as int]), limit));
            return true;
        }
        i = i + 1;
    }
    false
}

pub(crate) fn ignored(view: ViewId, reason: &'static str) -> (effects: Vec<CompletionEffect>)
    ensures
        effects@ == ignored_effects(view, reason),
{
    let effects = vec![CompletionEffect::Ignored { view: Some(view), reason }];
    assert(effects@ =~= ignored_effects(view, reason));
    effects
}

pub(crate) fn rejected(view: ViewId, reason: &'static str) -> (effects: Vec<CompletionEffect>)
    ensures
        effects@ == rejected_effects(view, reason),
{
    let effects = vec![CompletionEffect::Rejected { view: Some(view), reason }];
    assert(effects@ =~= rejected_effects(view, reason));
    effects
}

fn faulted_source(key: SourceRequestKey, reason: &'static str) -> (effects: Vec<CompletionEffect>)
    ensures
        effects@ == fault_effects(key, reason),
{
    let view = key.view();
    let mut effects: Vec<CompletionEffect> = Vec::new();
    effects.push(CompletionEffect::SourceFailed { key: key.clone(), reason });
    effects.push(CompletionEffect::CancelSource(key));
    effects.push(CompletionEffect::ViewChanged(view));
    assert(effects@ =~= fault_effects(key, reason));
    effects
}

pub(crate) fn view_changed(view: ViewId) -> (effects: Vec<CompletionEffect>)
    ensures
        effects@ == changed_effects(view),
{
    let effects = vec![CompletionEffect::ViewChanged(view)];
    assert(effects@ =~= changed_effects(view));
    effects
}

impl SourceState {
    /// The bytes that the chunks take once a batch of that kind has been installed.
    fn chunk_heap_bytes_after(&self, kind: CompletionBatchKind, capacity: usize) -> (bytes: usize)
        ensures
            forall|key: CompletionSourceKey, batch: CompletionBatch|
                batch.kind == kind ==> bytes == #[trigger] chunk_room_after(
                    self.status(key),
                    batch,
                    capacity as int,
                ),
    {
        let width = mem::size_of::<Box<[CompletionItem]>>();
        match kind {
            CompletionBatchKind::Replace => {
                assert(chunk_room(1) == width) by {
                    assert(1 * width as int == width);
                }
                width
            },
            CompletionBatchKind::Append { .. } => {
                let next = if self.chunks.len() < capacity {
                    capacity
                } else if capacity < 2 {
                    4
                } else {
                    capped_product(capacity, 2)
                };
                proof {
                    let size = width as int;
                    let wide = larger(capacity as int, 2) * 2;
                    assert(capped(capped(wide) * size) == capped(wide * size)) by {
                        lemma_capped_factor(size, wide);
                        assert(size * wide == wide * size) by (nonlinear_arith);
                        assert(size * capped(wide) == capped(wide) * size) by (nonlinear_arith);
                    }
                }
                capped_product(next, width)
            },
        }
    }

    /// Takes in a batch that takes `bytes` bytes.
    fn fill(
        &mut self,
        kind: CompletionBatchKind,
        version: SourceBatchVersion,
        items: Vec<CompletionItem>,
        is_final: bool,
        incomplete: IncompleteDirections,
        bytes: usize,
    )
        requires
            bytes == capped(items_bytes(items@)),
            items_bytes(items@) >= 0,
        ensures
            forall|key: CompletionSourceKey, batch: CompletionBatch|
                batch.kind == kind && batch.version == version && batch.items@ == items@
                    && batch.is_final == is_final && batch.incomplete == incomplete
                    ==> #[trigger] filled(old(self).status(key), batch) == final(self).status(key),
    {
        let ghost before = self.pieces();
        let count = items.len();
        let ghost delivered = items@;
        let chunk = boxed(items);
        match kind {
            CompletionBatchKind::Replace => {
                self.version = Some(version);
                self.next_sequence = 1;
                let mut chunks: Vec<Box<[CompletionItem]>> = Vec::new();
                chunks.push(chunk);
                self.chunks = chunks;
                self.item_count = count;
                self.item_heap_bytes = bytes;
                assert(self.pieces() =~= seq![delivered]);
            },
            CompletionBatchKind::Append { .. } => {
                self.next_sequence = if self.next_sequence == u32::MAX {
                    0
                } else {
                    self.next_sequence + 1
                };
                self.chunks.push(chunk);
                self.item_count = self.item_count.saturating_add(count);
                self.item_heap_bytes = self.item_heap_bytes.saturating_add(bytes);
                assert(self.pieces() =~= before.push(delivered));
            },
        }
        self.pending = !is_final;
        self.final_batch = is_final;
        self.incomplete = incomplete;
    }
}

impl Session {
    /// Installs a batch of one of the sources, given the room of the collections.
    pub fn install_batch(
        &mut self,
        batch: CompletionBatch,
        limits: &CompletionLimits,
        room: &SessionCapacities,
    ) -> (effects: Vec<CompletionEffect>)
        requires
            old(self).valid(),
            has_room(old(self).model(), room.model()),
        ensures
            final(self).valid(),
            batch_step(old(self).model(), *limits, batch, room.model()) == (Step {
                session: Some(final(self).model()),
                effects: effects@,
            }),
            countable(old(self).model()) ==> countable(final(self).model()),
    {
        let ghost before = self.model();
        let view = batch.key.view();
        if self.request.task_key() != batch.key.task() {
            return ignored(view, "stale request identity");
        }
        let position = match self.source_position(batch.key.source()) {
            Some(position) => position,
            None => return ignored(view, "inactive source"),
        };
        let ghost i = position as int;
        let ghost source = before.sources[i];
        assert(source == self.sources@[i].status(self.source_order@[i]));
        proof {
            lemma_same_offers(before.sources, i, faulted(source));
        }
        if self.sources[position].timed_out {
            return ignored(view, "source timed out");
        }
        if self.sources[position].final_batch || self.sources[position].failed {
            return ignored(view, "source already completed");
        }
        let accepted = match batch.kind {
            CompletionBatchKind::Replace => match self.sources[position].version {
                Some(version) => batch.version.0 > version.0,
                None => true,
            },
            CompletionBatchKind::Append { sequence } => self.sources[position].version == Some(
                batch.version,
            ) && sequence == self.sources[position].next_sequence,
        };
        if !accepted {
            return ignored(view, "out-of-order source batch");
        }
        let bytes = total_bytes(&batch.items);
        if batch.items.len() > limits.max_source_items || bytes > limits.max_batch_bytes
            || any_item_longer_than(&batch.items, limits.max_string_bytes) {
            self.sources[position].pending = false;
            self.sources[position].failed = true;
            assert(self.model() =~= with_source(before, i, faulted(source)));
            return faulted_source(batch.key, "source batch limit exceeded");
        }
        let upper = self.estimated_heap_upper_bound(room, 0, limits.visible_items);
        let width = mem::size_of::<Box<[CompletionItem]>>();
        let old_chunk_bytes = capped_product(room.chunks[position], width);
        let next_chunk_bytes = self.sources[position].chunk_heap_bytes_after(
            batch.kind,
            room.chunks[position],
        );
        let state = &self.sources[position];
        let old_count = state.item_count;
        let old_bytes = state.item_heap_bytes;
        let next_source_count;
        let next_source_bytes;
        let next_source_batches;
        match batch.kind {
            CompletionBatchKind::Replace => {
                next_source_count = batch.items.len();
                next_source_bytes = bytes;
                next_source_batches = 1usize;
            },
            CompletionBatchKind::Append { .. } => {
                next_source_count = old_count.saturating_add(batch.items.len());
                next_source_bytes = old_bytes.saturating_add(bytes);
                next_source_batches = state.chunks.len().saturating_add(1);
            },
        }
        let next_count = self.item_count.saturating_sub(old_count).saturating_add(
            next_source_count,
        );
        let next_item_bytes = self.item_heap_bytes.saturating_sub(old_bytes).saturating_add(
            next_source_bytes,
        );
        let ghost next = filled(source, batch);
        let ghost after = counted(before, i, next);
        assert(next_source_count == next.item_count);
        assert(next_source_bytes == next.item_heap_bytes);
        assert(next_source_batches == capped(next.chunks.len() as int));
        assert(next_count == after.item_count);
        assert(next_item_bytes == after.item_heap_bytes);
        assert(next_chunk_bytes == chunk_room_after(source, batch, room.chunks[i] as int));
        let total = upper.saturating_sub(old_chunk_bytes).saturating_add(
            next_chunk_bytes,
        ).saturating_add(next_item_bytes);
        let over = next_source_count > limits.max_source_items || next_source_batches
            > limits.max_source_batches || next_count > limits.max_session_items || total
            > limits.max_session_bytes;
        assert(over == overfull(before, *limits, i, batch, room.model()));
        if over {
            self.sources[position].pending = false;
            self.sources[position].failed = true;
            assert(self.model() =~= with_source(before, i, faulted(source)));
            return faulted_source(batch.key, "session limit exceeded");
        }
        self.sources[position].fill(
            batch.kind,
            batch.version,
            batch.items,
            batch.is_final,
            batch.incomplete,
            bytes,
        );
        self.item_count = next_count;
        self.item_heap_bytes = next_item_bytes;
        assert(self.model() =~= after);
        self.recompute(limits.visible_items);
        view_changed(view)
    }

    /// The work of a source has timed out, whatever it has delivered.
    pub fn source_timed_out(&mut self, key: SourceRequestKey) -> (effects: Vec<CompletionEffect>)
        requires
            old(self).valid(),
        ensures
            final(self).valid(),
            end_step(old(self).model(), key.model(), SourceEnd::TimedOut) == (Step {
                session: Some(final(self).model()),
                effects: effects@,
            }),
    {
        let ghost before = self.model();
        let view = key.view();
        if self.request.task_key() != key.task() {
            return ignored(view, "stale timeout");
        }
        match self.source_position(key.source()) {
            Some(position) => {
                let ghost source = before.sources[position as int];
                self.sources[position].pending = false;
                self.sources[position].timed_out = true;
                assert(self.model() =~= with_source(
                    before,
                    position as int,
                    ended(source, SourceEnd::TimedOut),
                ));
                view_changed(view)
            },
            None => ignored(view, "inactive source"),
        }
    }

    /// The work of a source has failed.
    pub fn source_failed(&mut self, key: SourceRequestKey) -> (effects: Vec<CompletionEffect>)
        requires
            old(self).valid(),
        ensures
            final(self).valid(),
            end_step(old(self).model(), key.model(), SourceEnd::Failed) == (Step {
                session: Some(final(self).model()),
                effects: effects@,
            }),
    {
        let ghost before = self.model();
        let view = key.view();
        if self.request.task_key() != key.task() {
            return ignored(view, "stale request identity");
        }
        match self.source_position(key.source()) {
            Some(position) => {
                let ghost source = before.sources[position as int];
                let state = &self.sources[position];
                if state.timed_out || state.failed || state.final_batch {
                    return ignored(view, "source already completed");
                }
                self.sources[position].pending = false;
                self.sources[position].failed = true;
                assert(self.model() =~= with_source(
                    before,
                    position as int,
                    ended(source, SourceEnd::Failed),
                ));
                view_changed(view)
            },
            None => ignored(view, "inactive source"),
        }
    }

    /// The work of a source is done.
    pub fn source_completed(&mut self, key: SourceRequestKey) -> (effects: Vec<CompletionEffect>)
        requires
            old(self).valid(),
        ensures
            final(self).valid(),
            end_step(old(self).model(), key.model(), SourceEnd::Completed) == (Step {
                session: Some(final(self).model()),
                effects: effects@,
            }),
    {
        let ghost before = self.model();
        let view = key.view();
        if self.request.task_key() != key.task() {
            return ignored(view, "stale request identity");
        }
        match self.source_position(key.source()) {
            Some(position) => {
                let ghost source = before.sources[position as int];
                let state = &self.sources[position];
                if state.timed_out || state.failed || state.final_batch {
                    return ignored(view, "source already completed");
                }
                self.sources[position].pending = false;
                self.sources[position].final_batch = true;
                assert(self.model() =~= with_source(
                    before,
                    position as int,
                    ended(source, SourceEnd::Completed),
                ));
                view_changed(view)
            },
            None => ignored(view, "inactive source"),
        }
    }

    /// Moves the selection and tells where it stands.
    pub fn select(&mut self, view: ViewId, movement: SelectionMove) -> (effects: Vec<
        CompletionEffect,
    >)
        requires
            old(self).valid(),
        ensures
            final(self).valid(),
            move_step(old(self).model(), view, movement) == (Step {
                session: Some(final(self).model()),
                effects: effects@,
            }),
    {
        let ghost before = self.model();
        self.move_selection(movement);
        let change = CompletionSelectionChange {
            view,
            candidate: copy_id(&self.selected),
            visible_index: self.selected_position(),
        };
        let effects = vec![CompletionEffect::SelectionChanged(change)];
        assert(effects@ =~= move_step(before, view, movement).effects);
        effects
    }

    /// Asks for what the source of the selected candidate can add.
    pub fn resolve_selected(&self, view: ViewId) -> (effects: Vec<CompletionEffect>)
        requires
            self.valid(),
        ensures
            resolve_step(self.model(), view) == (Step {
                session: Some(self.model()),
                effects: effects@,
            }),
    {
        match &self.selected {
            None => ignored(view, "no selected candidate"),
            Some(candidate) => {
                if !self.source_available_for_resolve(candidate) {
                    return ignored(view, "selected source unavailable for resolve");
                }
                let key = ResolveRequestKey {
                    task: self.request.task_key(),
                    view,
                    candidate: candidate.clone(),
                };
                let effects = vec![CompletionEffect::RequestResolve(key)];
                assert(effects@ =~= resolve_step(self.model(), view).effects);
                effects
            },
        }
    }

    /// Installs what the source of the selected candidate added, given the room of the
    /// collections.
    pub fn install_resolved(
        &mut self,
        key: ResolveRequestKey,
        data: ResolveData,
        limits: &CompletionLimits,
        room: &SessionCapacities,
    ) -> (effects: Vec<CompletionEffect>)
        requires
            old(self).valid(),
            has_room(old(self).model(), room.model()),
        ensures
            final(self).valid(),
            resolved_step(old(self).model(), *limits, key, data, room.model()) == (Step {
                session: Some(final(self).model()),
                effects: effects@,
            }),
    {
        let ghost before = self.model();
        if self.request.task_key() != key.task || !self.is_selected(&key.candidate)
            || !self.candidate_exists(&key.candidate) || !self.source_available_for_resolve(
            &key.candidate,
        ) {
            return ignored(key.view, "stale resolve result");
        }
        if any_longer_than(&data.strings(), limits.max_string_bytes) {
            return self.fail_resolve_source(key.candidate, "resolve string limit exceeded");
        }
        let next_bytes = self.estimated_heap_bytes(room).saturating_sub(
            self.resolved_heap_bytes(),
        ).saturating_add(data.estimated_heap_bytes());
        if next_bytes > limits.max_session_bytes {
            return self.fail_resolve_source(key.candidate, "resolve session limit exceeded");
        }
        self.resolved = Some((key.candidate, data));
        assert(self.model() =~= (SessionModel { resolved: Some((key.candidate, data)), ..before }));
        view_changed(key.view)
    }

    /// The source of the candidate faulted while it resolved the candidate.
    fn fail_resolve_source(&mut self, candidate: CandidateId, reason: &'static str) -> (effects:
        Vec<CompletionEffect>)
        requires
            old(self).valid(),
        ensures
            final(self).valid(),
            resolve_fault(old(self).model(), candidate, reason) == (Step {
                session: Some(final(self).model()),
                effects: effects@,
            }),
    {
        let ghost before = self.model();
        if let Some(position) = self.source_position(&candidate.source) {
            let ghost source = before.sources[position as int];
            self.sources[position].pending = false;
            self.sources[position].failed = true;
            assert(self.model() =~= with_source(before, position as int, faulted(source)));
        }
        faulted_source(self.request.source_key(candidate.source), reason)
    }

    /// Hands out everything that applying the selected candidate needs.
    pub fn accept_selected(&self, view: ViewId) -> (effects: Vec<CompletionEffect>)
        requires
            self.valid(),
        ensures
            accept_step(self.model(), view) == (Step {
                session: Some(self.model()),
                effects: effects@,
            }),
    {
        match &self.selected {
            None => ignored(view, "no selected candidate"),
            Some(candidate) => match self.item(candidate) {
                None => ignored(view, "selected candidate disappeared"),
                Some(item) => {
                    let acceptance = CompletionAcceptance {
                        task: self.request.task_key(),
                        view,
                        content: self.request.content(),
                        content_revision: self.request.content_revision(),
                        view_revision: self.request.view_revision(),
                        selection: self.request.selection(),
                        candidate: candidate.clone(),
                        range: match item.insert_range {
                            Some(range) => range,
                            None => self.request.range(),
                        },
                        text: share(&item.insert_text),
                    };
                    let effects = vec![CompletionEffect::Accept(acceptance)];
                    assert(effects@ =~= accept_step(self.model(), view).effects);
                    effects
                },
            },
        }
    }

    /// Whether an acceptance of that candidate for that request may be committed.
    pub fn may_commit(&self, task: CompletionTaskKey, candidate: &CandidateId) -> (may: bool)
        ensures
            may == (self.model().request.task() == task && same_choice(
                self.model().selected,
                *candidate,
            )),
    {
        self.request.task_key() == task && self.is_selected(candidate)
    }

    /// Stops every source that is still at work.
    pub fn cancel_effects(&self) -> (effects: Vec<CompletionEffect>)
        requires
            self.valid(),
        ensures
            effects@ == cancel_effects(self.model().request, self.model().sources),
    {
        let ghost sources = self.model().sources;
        let mut effects: Vec<CompletionEffect> = Vec::new();
        let mut i: usize = 0;
        while i < self.sources.len()
            invariant
                self.valid(),
                i <= self.sources.len(),
                sources == self.model().sources,
                effects@ == cancel_effects(self.request, sources.take(i as int)),
            decreases self.sources.len() - i,
        {
            assert(sources.take(i + 1).drop_last() =~= sources.take(i as int));
            if self.sources[i].pending {
                effects.push(
                    CompletionEffect::CancelSource(
                        self.request.source_key(self.source_order[i].clone()),
                    ),
                );
            }
            i = i + 1;
        }
        assert(sources.take(i as int) =~= sources);
        effects
    }

    /// The request that the session answers.
    pub fn request(&self) -> (request: &CompletionRequest)
        ensures
            *request == self.model().request,
    {
        &self.request
    }

    /// The sources, in their order.
    pub fn source_order(&self) -> (sources: &Vec<CompletionSourceKey>)
        requires
            self.valid(),
        ensures
            sources@ == keys_of(self.model().sources),
    {
        assert(self.source_order@ =~= keys_of(self.model().sources));
        &self.source_order
    }

    /// Whether a candidate is selected.
    pub fn has_selection(&self) -> (selected: bool)
        ensures
            selected == (self.model().selected is Some),
    {
        self.selected.is_some()
    }

    /// The candidates of the list as a frontend shows them.
    fn candidates(&self) -> (candidates: Vec<CompletionCandidate>)
        requires
            self.valid(),
            forall|i: int|
                0 <= i < self.model().matched.len() ==> item_of(
                    self.model().sources,
                    (#[trigger] self.model().matched[i]).id,
                ) is Some,
        ensures
            shows_list(candidates@, self.model()),
    {
        let ghost model = self.model();
        let mut candidates: Vec<CompletionCandidate> = Vec::new();
        let mut i: usize = 0;
        while i < self.matched.len()
            invariant
                self.valid(),
                model == self.model(),
                i <= self.matched.len(),
                candidates.len() == i,
                forall|j: int|
                    0 <= j < model.matched.len() ==> item_of(
                        model.sources,
                        (#[trigger] model.matched[j]).id,
                    ) is Some,
                forall|j: int|
                    0 <= j < i ==> shows_candidate(
                        #[trigger] candidates@[j],
                        model.matched[j],
                        item_of(model.sources, model.matched[j].id)->0,
                    ),
            decreases self.matched.len() - i,
        {
            let matched = &self.matched[i];
            assert(model.matched[i as int] == matched.found());
            if let Some(item) = self.item(&matched.id) {
                let shows_label = match &item.filter_text {
                    Some(filter) => same_text(&**filter, &*item.label),
                    None => true,
                };
                let match_positions = if shows_label {
                    share(&matched.positions)
                } else {
                    let none: Vec<usize> = Vec::new();
                    assert(numbers_key(none@) =~= Seq::empty());
                    share_numbers(none.as_slice())
                };
                let candidate = CompletionCandidate {
                    id: matched.id.clone(),
                    label: share(&item.label),
                    detail: share_option(&item.detail),
                    kind: share_option(&item.kind),
                    group: share_option(&item.group),
                    deprecated: item.deprecated,
                    match_positions,
                };
                assert(shows_candidate(candidate, matched.found(), *item));
                candidates.push(candidate);
            }
            i = i + 1;
        }
        candidates
    }

    /// Everything that a frontend shows of the session, given the room of its collections.
    pub fn snapshot(&self, room: &SessionCapacities) -> (snapshot: CompletionSnapshot)
        requires
            self.valid(),
            has_room(self.model(), room.model()),
            forall|i: int|
                0 <= i < self.model().matched.len() ==> item_of(
                    self.model().sources,
                    (#[trigger] self.model().matched[i]).id,
                ) is Some,
        ensures
            shows_session(snapshot, self.model(), room.model()),
    {
        let ghost sources = self.model().sources;
        let mut collecting = false;
        let mut incomplete = false;
        let mut faults: usize = 0;
        let mut names: Vec<CompletionSourceKey> = Vec::new();
        let mut i: usize = 0;
        while i < self.sources.len()
            invariant
                self.valid(),
                sources == self.model().sources,
                i <= self.sources.len(),
                names@ =~= keys_of(sources.take(i as int)),
                collecting == (exists|j: int| 0 <= j < i && (#[trigger] sources[j]).pending),
                incomplete == (exists|j: int| 0 <= j < i && has_more(#[trigger] sources[j])),
                faults == fault_count(sources.take(i as int)),
                faults <= i,
            decreases self.sources.len() - i,
        {
            let state = &self.sources[i];
            assert(sources[i as int] == state.status(self.source_order@[i as int]));
            assert(sources.take(i + 1).drop_last() =~= sources.take(i as int));
            names.push(self.source_order[i].clone());
            if state.pending {
                collecting = true;
            }
            if state.incomplete.forward || state.incomplete.backward {
                assert(has_more(sources[i as int]));
                incomplete = true;
            }
            if state.failed || state.timed_out {
                faults = faults + 1;
            }
            i = i + 1;
        }
        assert(sources.take(i as int) =~= sources);
        CompletionSnapshot {
            request: self.request.clone(),
            sources: names,
            candidates: self.candidates(),
            selected: copy_id(&self.selected),
            collecting,
            incomplete,
            source_faults: faults,
            resolved: match &self.resolved {
                Some((id, data)) => Some((id.clone(), data.clone())),
                None => None,
            },
            source_count: self.sources.len(),
            item_count: self.item_count,
            estimated_heap_bytes: self.estimated_heap_bytes(room),
        }
    }
}

/// Another copy of an optional identity.
fn copy_id(id: &Option<CandidateId>) -> (copy: Option<CandidateId>)
    ensures
        copy == *id,
{
    match id {
        Some(id) => Some(id.clone()),
        None => None,
    }
}

} // verus!
