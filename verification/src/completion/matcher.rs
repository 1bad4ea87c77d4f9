//! Ranking of the items that match a query.

use crate::completion::fuzzy::{
    fuzzy_match, match_positions, nearest_i64, score_of, to_nearest_i64, FoldedQuery,
};
use crate::completion::model::{
    CandidateId, CompletionItem, CompletionSourceKey, SourceBatchVersion,
};
use crate::text::{
    chars_of, compare_numbers, compare_text, composes, flipped, law_texts_stand_by_their_bytes,
    lemma_lex_composes, lemma_lex_flip, lemma_lex_same, lemma_text_key_injective, lex, numbers_key,
    share, share_numbers, text_key, text_order, Order,
};
use std::sync::Arc;
use vstd::prelude::*;

verus! {

/// An item put forward for matching, with where it comes from.
pub struct MatchInput<'a> {
    pub source: &'a CompletionSourceKey,
    pub batch: SourceBatchVersion,
    pub ordinal: usize,
    pub item: &'a CompletionItem,
    pub source_order: usize,
}

impl<'a> MatchInput<'a> {
    /// What is put forward.
    pub open spec fn offer(self) -> Offer {
        Offer {
            id: CandidateId { source: *self.source, batch: self.batch, ordinal: self.ordinal },
            item: *self.item,
            source_order: self.source_order as int,
        }
    }
}

/// An item put forward for matching: its identity and the place of its source among the sources.
pub struct Offer {
    pub id: CandidateId,
    pub item: CompletionItem,
    pub source_order: int,
}

/// A matching item: where it matches and how well.
pub struct Entry {
    pub offer: Offer,
    pub positions: Seq<int>,
    pub score: int,
}

/// A candidate of the list: which item it is and where it matches.
#[verifier::ext_equal]
pub struct Match {
    pub id: CandidateId,
    pub positions: Seq<int>,
}

/// A matching item that made it into the list.
pub struct Matched {
    pub id: CandidateId,
    pub positions: Arc<[usize]>,
}

impl Matched {
    /// The candidate.
    pub open spec fn found(self) -> Match {
        Match { id: self.id, positions: numbers_key((*self.positions)@) }
    }
}

impl Clone for Matched {
    fn clone(&self) -> (copy: Self)
        ensures
            copy == *self,
    {
        Matched { id: self.id.clone(), positions: share(&self.positions) }
    }
}

/// What stands in the list, in its order.
pub open spec fn found_of(list: Seq<Matched>) -> Seq<Match> {
    list.map_values(|matched: Matched| matched.found())
}

/// The text that a query is held against.
pub open spec fn filter_of(item: CompletionItem) -> Seq<char> {
    match item.filter_text {
        Some(text) => chars_of(text),
        None => chars_of(item.label),
    }
}

/// The text by which equally good items are sorted.
pub open spec fn sort_of(item: CompletionItem) -> Seq<char> {
    match item.sort_text {
        Some(text) => chars_of(text),
        None => chars_of(item.label),
    }
}

/// The entry of an offer, where it matches.
pub open spec fn entry_of(query: Seq<char>, offer: Offer) -> Option<Entry> {
    match match_positions(query, filter_of(offer.item)) {
        Some(positions) => Some(
            Entry {
                offer,
                positions,
                score: nearest_i64(score_of(positions) + offer.item.source_bias),
            },
        ),
        None => None,
    }
}

/// The entries of all offers that match, in the order of the offers.
pub open spec fn entries(query: Seq<char>, offers: Seq<Offer>) -> Seq<Entry>
    decreases offers.len(),
{
    if offers.len() == 0 {
        Seq::empty()
    } else {
        let before = entries(query, offers.drop_last());
        match entry_of(query, offers.last()) {
            Some(entry) => before.push(entry),
            None => before,
        }
    }
}

/// Smaller numbers come first.
pub open spec fn number_order(left: int, right: int) -> Order {
    if left < right {
        Order::Less
    } else if left > right {
        Order::More
    } else {
        Order::Same
    }
}

/// The first order where it tells the values apart, else the second.
pub open spec fn then_by(first: Order, second: Order) -> Order {
    if first is Same {
        second
    } else {
        first
    }
}

/// How two matching items stand to each other in the list: the higher score first, then the sort
/// text, the label, the place of the source, its name, the batch and the ordinal, smaller first,
/// and at last the later match positions first.
pub open spec fn rank(a: Entry, b: Entry) -> Order {
    then_by(
        number_order(b.score, a.score),
        then_by(
            text_order(sort_of(a.offer.item), sort_of(b.offer.item)),
            then_by(
                text_order(chars_of(a.offer.item.label), chars_of(b.offer.item.label)),
                then_by(
                    number_order(a.offer.source_order, b.offer.source_order),
                    then_by(
                        text_order(a.offer.id.source.name(), b.offer.id.source.name()),
                        then_by(
                            number_order(a.offer.id.batch.0 as int, b.offer.id.batch.0 as int),
                            then_by(
                                number_order(
                                    a.offer.id.ordinal as int,
                                    b.offer.id.ordinal as int,
                                ),
                                lex(b.positions, a.positions),
                            ),
                        ),
                    ),
                ),
            ),
        ),
    )
}

/// `a` comes before `b` in the list.
pub open spec fn ahead(a: Entry, b: Entry) -> bool {
    rank(a, b) is Less
}

/// No entry of the list is ahead of one that stands before it.
pub open spec fn in_rank_order(list: Seq<Entry>) -> bool {
    forall|i: int, j: int| 0 <= i < j < list.len() ==> !ahead(list[j], list[i])
}

/// The list with `entry` put directly behind the last one that it is not ahead of.
pub open spec fn insert_ranked(list: Seq<Entry>, entry: Entry) -> Seq<Entry>
    decreases list.len(),
{
    if list.len() > 0 && ahead(entry, list.last()) {
        insert_ranked(list.drop_last(), entry).push(list.last())
    } else {
        list.push(entry)
    }
}

/// The entries in the order of the list.
pub open spec fn ranked(all: Seq<Entry>) -> Seq<Entry>
    decreases all.len(),
{
    if all.len() == 0 {
        Seq::empty()
    } else {
        insert_ranked(ranked(all.drop_last()), all.last())
    }
}

/// At most the first `limit` of a list.
pub open spec fn first_few<T>(list: Seq<T>, limit: int) -> Seq<T> {
    if list.len() <= limit {
        list
    } else {
        list.take(limit)
    }
}

/// The candidates that entries stand for.
pub open spec fn matches_of(list: Seq<Entry>) -> Seq<Match> {
    list.map_values(|entry: Entry| Match { id: entry.offer.id, positions: entry.positions })
}

/// The best matches among the offers, best first.
pub open spec fn best_matches(query: Seq<char>, offers: Seq<Offer>, limit: int) -> Seq<Match> {
    matches_of(first_few(ranked(entries(query, offers)), limit))
}

/// What is put forward, in its order.
pub open spec fn offers_of(inputs: Seq<MatchInput<'_>>) -> Seq<Offer> {
    inputs.map_values(|input: MatchInput<'_>| input.offer())
}

/// The order of the list composes: what is ahead of an entry is ahead of all that follows it.
pub proof fn law_rank_composes(a: Entry, b: Entry, c: Entry)
    ensures
        composes(rank(a, b), rank(b, c), rank(a, c)),
{
    lemma_lex_composes(c.positions, b.positions, a.positions, 0);
    lemma_lex_flip(c.positions, b.positions, 0);
    lemma_lex_flip(b.positions, a.positions, 0);
    lemma_lex_flip(c.positions, a.positions, 0);
    lemma_lex_composes(
        text_key(sort_of(a.offer.item)),
        text_key(sort_of(b.offer.item)),
        text_key(sort_of(c.offer.item)),
        0,
    );
    lemma_lex_composes(
        text_key(chars_of(a.offer.item.label)),
        text_key(chars_of(b.offer.item.label)),
        text_key(chars_of(c.offer.item.label)),
        0,
    );
    lemma_lex_composes(
        text_key(a.offer.id.source.name()),
        text_key(b.offer.id.source.name()),
        text_key(c.offer.id.source.name()),
        0,
    );
}

/// Exchanging two entries flips how they stand to each other.
pub proof fn law_rank_flips(a: Entry, b: Entry)
    ensures
        rank(b, a) == flipped(rank(a, b)),
{
    lemma_lex_flip(a.positions, b.positions, 0);
    lemma_lex_flip(text_key(sort_of(a.offer.item)), text_key(sort_of(b.offer.item)), 0);
    lemma_lex_flip(text_key(chars_of(a.offer.item.label)), text_key(chars_of(b.offer.item.label)), 0);
    lemma_lex_flip(text_key(a.offer.id.source.name()), text_key(b.offer.id.source.name()), 0);
}

/// Where an entry goes: everything behind index `at` is what it is ahead of.
proof fn lemma_insert_at(list: Seq<Entry>, entry: Entry, at: int)
    requires
        0 <= at <= list.len(),
        forall|i: int| at <= i < list.len() ==> ahead(entry, #[trigger] list[i]),
        at > 0 ==> !ahead(entry, list[at - 1]),
    ensures
        insert_ranked(list, entry) == list.insert(at, entry),
    decreases list.len(),
{
    if list.len() > at {
        let shorter = list.drop_last();
        assert forall|i: int| at <= i < shorter.len() implies ahead(entry, #[trigger] shorter[i]) by {
            assert(shorter[i] == list[i]);
        }
        lemma_insert_at(shorter, entry, at);
        assert(shorter.insert(at, entry).push(list.last()) =~= list.insert(at, entry));
    } else {
        assert(list.push(entry) =~= list.insert(at, entry));
    }
}

/// The index at which an entry goes into a list.
spec fn place(list: Seq<Entry>, entry: Entry) -> int
    decreases list.len(),
{
    if list.len() > 0 && ahead(entry, list.last()) {
        place(list.drop_last(), entry)
    } else {
        list.len() as int
    }
}

proof fn lemma_place(list: Seq<Entry>, entry: Entry)
    ensures
        0 <= place(list, entry) <= list.len(),
        forall|i: int| place(list, entry) <= i < list.len() ==> ahead(entry, #[trigger] list[i]),
        place(list, entry) > 0 ==> !ahead(entry, list[place(list, entry) - 1]),
        insert_ranked(list, entry) == list.insert(place(list, entry), entry),
    decreases list.len(),
{
    if list.len() > 0 && ahead(entry, list.last()) {
        let shorter = list.drop_last();
        lemma_place(shorter, entry);
        assert forall|i: int| place(list, entry) <= i < list.len() implies ahead(
            entry,
            #[trigger] list[i],
        ) by {
            if i < shorter.len() {
                assert(shorter[i] == list[i]);
            }
        }
    }
    lemma_insert_at(list, entry, place(list, entry));
}

/// Putting an entry in its place keeps the order of the list.
proof fn lemma_insert_keeps_order(list: Seq<Entry>, entry: Entry)
    requires
        in_rank_order(list),
    ensures
        in_rank_order(insert_ranked(list, entry)),
{
    lemma_place(list, entry);
    let at = place(list, entry);
    let after = list.insert(at, entry);
    assert forall|i: int, j: int| 0 <= i < j < after.len() implies !ahead(after[j], after[i]) by {
        if i == at {
            law_rank_flips(entry, list[j - 1]);
            assert(ahead(entry, list[j - 1]));
        } else if j == at {
            assert(!ahead(entry, list[at - 1]));
            if ahead(entry, list[i]) && i < at - 1 {
                assert(!ahead(list[at - 1], list[i]));
                law_rank_flips(list[at - 1], list[i]);
                law_rank_composes(entry, list[i], list[at - 1]);
            }
        }
    }
}

/// Entries that are put in their places one by one stand in the order of the list.
proof fn lemma_ranked_in_order(all: Seq<Entry>)
    ensures
        in_rank_order(ranked(all)),
        ranked(all).len() == all.len(),
    decreases all.len(),
{
    if all.len() > 0 {
        lemma_ranked_in_order(all.drop_last());
        lemma_insert_keeps_order(ranked(all.drop_last()), all.last());
        lemma_place(ranked(all.drop_last()), all.last());
    }
}

/// What falls out of a short list could not have come back.
proof fn lemma_insert_into_first_few(list: Seq<Entry>, entry: Entry, limit: int)
    requires
        in_rank_order(list),
        limit >= 0,
    ensures
        first_few(insert_ranked(list, entry), limit) == first_few(
            insert_ranked(first_few(list, limit), entry),
            limit,
        ),
{
    let short = first_few(list, limit);
    lemma_place(list, entry);
    lemma_place(short, entry);
    let at = place(list, entry);
    if list.len() > limit {
        if at > limit {
            if limit > 0 && ahead(entry, list[limit - 1]) {
                assert(!ahead(list[at - 1], list[limit - 1]));
                law_rank_flips(list[at - 1], list[limit - 1]);
                law_rank_composes(entry, list[limit - 1], list[at - 1]);
            }
            assert(limit > 0 ==> !ahead(entry, short[limit - 1]));
            lemma_insert_at(short, entry, limit);
            assert(list.insert(at, entry).take(limit) =~= short.insert(limit, entry).take(limit));
        } else {
            assert forall|i: int| at <= i < short.len() implies ahead(
                entry,
                #[trigger] short[i],
            ) by {
                assert(short[i] == list[i]);
            }
            lemma_insert_at(short, entry, at);
            assert(list.insert(at, entry).take(limit) =~= short.insert(at, entry).take(limit));
        }
    }
}

/// An entry on its way into the list.
struct Ranked<'a> {
    input: MatchInput<'a>,
    score: i64,
    positions: Vec<usize>,
}

impl<'a> Ranked<'a> {
    spec fn entry(self) -> Entry {
        Entry {
            offer: self.input.offer(),
            positions: numbers_key(self.positions@),
            score: self.score as int,
        }
    }

    fn is_ahead_of(&self, other: &Ranked<'a>) -> (result: bool)
        ensures
            result == ahead(self.entry(), other.entry()),
    {
        if self.score != other.score {
            return self.score > other.score;
        }
        match compare_text(sort_text(self.input.item), sort_text(other.input.item)) {
            Order::Less => return true,
            Order::More => return false,
            Order::Same => {},
        }
        match compare_text(&*self.input.item.label, &*other.input.item.label) {
            Order::Less => return true,
            Order::More => return false,
            Order::Same => {},
        }
        if self.input.source_order != other.input.source_order {
            return self.input.source_order < other.input.source_order;
        }
        match compare_text(self.input.source.as_str(), other.input.source.as_str()) {
            Order::Less => return true,
            Order::More => return false,
            Order::Same => {},
        }
        if self.input.batch.0 != other.input.batch.0 {
            return self.input.batch.0 < other.input.batch.0;
        }
        if self.input.ordinal != other.input.ordinal {
            return self.input.ordinal < other.input.ordinal;
        }
        compare_numbers(&other.positions, &self.positions) == Order::Less
    }
}

spec fn entries_of(list: Seq<Ranked<'_>>) -> Seq<Entry> {
    list.map_values(|ranked: Ranked<'_>| ranked.entry())
}

/// The text that a query is held against.
fn filter_text(item: &CompletionItem) -> (text: &str)
    ensures
        text@ == filter_of(*item),
{
    match &item.filter_text {
        Some(text) => &**text,
        None => &*item.label,
    }
}

/// The text by which equally good items are sorted.
fn sort_text(item: &CompletionItem) -> (text: &str)
    ensures
        text@ == sort_of(*item),
{
    match &item.sort_text {
        Some(text) => &**text,
        None => &*item.label,
    }
}

/// Puts an entry in its place and drops the last one where the list grows too long.
fn insert_within<'a>(list: &mut Vec<Ranked<'a>>, entry: Ranked<'a>, limit: usize)
    requires
        old(list).len() <= limit,
    ensures
        entries_of(final(list)@) == first_few(
            insert_ranked(entries_of(old(list)@), entry.entry()),
            limit as int,
        ),
        final(list).len() <= limit,
{
    let ghost before = entries_of(list@);
    let ghost new = entry.entry();
    let mut at: usize = list.len();
    while at > 0 && entry.is_ahead_of(&list[at - 1])
        invariant
            at <= list.len(),
            before == entries_of(list@),
            new == entry.entry(),
            forall|i: int| at <= i < before.len() ==> ahead(new, #[trigger] before[i]),
        decreases at,
    {
        at = at - 1;
    }
    proof {
        if at > 0 {
            assert(before[at - 1] == list@[at - 1].entry());
        }
        lemma_insert_at(before, new, at as int);
    }
    list.insert(at, entry);
    assert(entries_of(list@) =~= before.insert(at as int, new));
    if list.len() > limit {
        let ghost full = entries_of(list@);
        list.pop();
        assert(entries_of(list@) =~= full.take(limit as int));
    }
}

/// The best matches among the candidates, best first and at most `limit`.
pub fn match_top_k<'a>(query: &str, candidates: Vec<MatchInput<'a>>, limit: usize) -> (best: Vec<
    Matched,
>)
    ensures
        found_of(best@) == best_matches(query@, offers_of(candidates@), limit as int),
        best@.len() == best_matches(query@, offers_of(candidates@), limit as int).len(),
        forall|i: int|
            0 <= i < best@.len() ==> (#[trigger] best@[i]).id == best_matches(
                query@,
                offers_of(candidates@),
                limit as int,
            )[i].id && numbers_key((*best@[i].positions)@) == best_matches(
                query@,
                offers_of(candidates@),
                limit as int,
            )[i].positions,
{
    let mut folded = FoldedQuery::new(query);
    let mut list: Vec<Ranked<'a>> = Vec::new();
    let ghost offers = offers_of(candidates@);
    assert(entries_of(list@) =~= first_few(ranked(entries(query@, offers.take(0))), limit as int));
    for input in iter: candidates
        invariant
            iter.seq() == candidates@,
            offers == offers_of(candidates@),
            folded.valid(),
            folded.query() == query@,
            list.len() <= limit,
            entries_of(list@) == first_few(
                ranked(entries(query@, offers.take(iter.index()))),
                limit as int,
            ),
    {
        let ghost seen = offers.take(iter.index());
        let ghost all = entries(query@, seen);
        proof {
            assert(offers.take(iter.index() + 1) =~= seen.push(input.offer()));
            assert(offers.take(iter.index() + 1).drop_last() =~= seen);
            lemma_ranked_in_order(all);
        }
        if let Some((score, positions)) = fuzzy_match(&mut folded, filter_text(input.item)) {
            let biased = to_nearest_i64(score as i128 + input.item.source_bias as i128);
            let entry = Ranked { input, score: biased, positions };
            proof {
                lemma_insert_into_first_few(ranked(all), entry.entry(), limit as int);
                assert(all.push(entry.entry()).drop_last() =~= all);
            }
            insert_within(&mut list, entry, limit);
        }
    }
    assert(offers.take(offers.len() as int) =~= offers);
    let ghost kept = entries_of(list@);
    let mut best: Vec<Matched> = Vec::new();
    for entry in iter: list
        invariant
            entries_of(iter.seq()) == kept,
            found_of(best@) == matches_of(kept.take(iter.index())),
    {
        let ghost before = best@;
        let id = CandidateId {
            source: entry.input.source.clone(),
            batch: entry.input.batch,
            ordinal: entry.input.ordinal,
        };
        let matched = Matched { id, positions: share_numbers(entry.positions.as_slice()) };
        best.push(matched);
        proof {
            assert(kept[iter.index() as int] == entry.entry());
            assert(kept.take(iter.index() + 1) =~= kept.take(iter.index()).push(entry.entry()));
            assert(found_of(best@) =~= found_of(before).push(matched.found()));
            assert(matches_of(kept.take(iter.index() + 1)) =~= matches_of(
                kept.take(iter.index()),
            ).push(matched.found()));
        }
    }
    assert(kept.take(kept.len() as int) =~= kept);
    assert forall|i: int| 0 <= i < best@.len() implies found_of(best@)[i]
        == (#[trigger] best@[i]).found() by {}
    best
}

/// Putting entries in order neither adds nor loses any.
pub proof fn law_ranking_is_a_permutation(all: Seq<Entry>)
    ensures
        ranked(all).to_multiset() == all.to_multiset(),
    decreases all.len(),
{
    broadcast use vstd::seq_lib::group_to_multiset_ensures;

    if all.len() > 0 {
        let shorter = all.drop_last();
        law_ranking_is_a_permutation(shorter);
        lemma_place(ranked(shorter), all.last());
        vstd::seq_lib::to_multiset_insert(
            ranked(shorter),
            place(ranked(shorter), all.last()),
            all.last(),
        );
        assert(all =~= shorter.push(all.last()));
    }
}

/// The list shows the best first, and nothing that it leaves out is ahead of anything it shows.
pub proof fn law_list_holds_the_best(query: Seq<char>, offers: Seq<Offer>, limit: int)
    requires
        limit >= 0,
    ensures
        ({
            let order = ranked(entries(query, offers));
            let shown = first_few(order, limit);
            &&& best_matches(query, offers, limit) == matches_of(shown)
            &&& shown.len() <= limit
            &&& shown.len() < limit ==> shown == order
            &&& in_rank_order(shown)
            &&& forall|i: int, j: int|
                0 <= i < shown.len() && shown.len() <= j < order.len() ==> !ahead(
                    #[trigger] order[j],
                    #[trigger] shown[i],
                )
        }),
{
    lemma_ranked_in_order(entries(query, offers));
}

/// Every candidate of the list is an offer that matches, at the positions where it matches.
pub proof fn law_candidates_match(query: Seq<char>, offers: Seq<Offer>, limit: int, i: int)
    requires
        limit >= 0,
        0 <= i < best_matches(query, offers, limit).len(),
    ensures
        ({
            let candidate = best_matches(query, offers, limit)[i];
            exists|k: int|
                0 <= k < offers.len() && (#[trigger] offers[k]).id == candidate.id
                    && match_positions(query, filter_of(offers[k].item)) == Some(
                    candidate.positions,
                )
        }),
{
    let all = entries(query, offers);
    lemma_ranked_in_order(all);
    law_ranking_is_a_permutation(all);
    let entry = ranked(all)[i];
    broadcast use vstd::seq_lib::group_to_multiset_ensures;

    assert(ranked(all).contains(entry));
    assert(ranked(all).to_multiset().count(entry) > 0);
    assert(all.contains(entry));
    let k = choose|k: int| 0 <= k < all.len() && all[k] == entry;
    lemma_entry_is_offered(query, offers, k);
}

/// Every entry comes from an offer.
proof fn lemma_entry_is_offered(query: Seq<char>, offers: Seq<Offer>, k: int)
    requires
        0 <= k < entries(query, offers).len(),
    ensures
        exists|j: int|
            0 <= j < offers.len() && entry_of(query, #[trigger] offers[j]) == Some(
                entries(query, offers)[k],
            ),
    decreases offers.len(),
{
    let shorter = offers.drop_last();
    let before = entries(query, shorter);
    if k < before.len() {
        lemma_entry_is_offered(query, shorter, k);
        let j = choose|j: int|
            0 <= j < shorter.len() && entry_of(query, #[trigger] shorter[j]) == Some(before[k]);
        assert(offers[j] == shorter[j]);
    } else {
        assert(entry_of(query, offers[offers.len() - 1]) == Some(entries(query, offers)[k]));
    }
}

/// An item that matches is shown unless the list is full of items that it is not ahead of.
pub proof fn law_matching_item_is_shown(query: Seq<char>, offers: Seq<Offer>, limit: int, k: int)
    requires
        limit >= 0,
        0 <= k < offers.len(),
        entry_of(query, offers[k]) is Some,
    ensures
        ({
            let shown = first_few(ranked(entries(query, offers)), limit);
            let entry = entry_of(query, offers[k])->0;
            shown.contains(entry) || (shown.len() == limit && forall|i: int|
                0 <= i < shown.len() ==> !ahead(entry, #[trigger] shown[i]))
        }),
{
    broadcast use vstd::seq_lib::group_to_multiset_ensures;

    let all = entries(query, offers);
    let entry = entry_of(query, offers[k])->0;
    lemma_offer_is_entered(query, offers, k);
    law_ranking_is_a_permutation(all);
    law_list_holds_the_best(query, offers, limit);
    assert(all.to_multiset().count(entry) > 0);
    assert(ranked(all).contains(entry));
    let order = ranked(all);
    let shown = first_few(order, limit);
    let j = choose|j: int| 0 <= j < order.len() && order[j] == entry;
    if j < shown.len() {
        assert(shown[j] == entry);
    }
}

/// Every offer that matches has its entry.
proof fn lemma_offer_is_entered(query: Seq<char>, offers: Seq<Offer>, k: int)
    requires
        0 <= k < offers.len(),
        entry_of(query, offers[k]) is Some,
    ensures
        entries(query, offers).contains(entry_of(query, offers[k])->0),
    decreases offers.len(),
{
    let shorter = offers.drop_last();
    let before = entries(query, shorter);
    let all = entries(query, offers);
    if k < shorter.len() {
        lemma_offer_is_entered(query, shorter, k);
        let j = choose|j: int|
            0 <= j < before.len() && before[j] == entry_of(query, offers[k])->0;
        assert(all[j] == before[j]);
    } else {
        assert(all[all.len() - 1] == entry_of(query, offers[k])->0);
    }
}

/// No two offers name the same candidate.
pub open spec fn offers_differ(offers: Seq<Offer>) -> bool {
    forall|i: int, j: int|
        0 <= i < j < offers.len() ==> !(#[trigger] offers[i]).id.is((#[trigger] offers[j]).id)
}

/// No two candidates of a list are the same.
pub open spec fn candidates_differ(list: Seq<Match>) -> bool {
    forall|i: int, j: int|
        0 <= i < j < list.len() ==> !(#[trigger] list[i]).id.is((#[trigger] list[j]).id)
}

spec fn entries_differ(list: Seq<Entry>) -> bool {
    forall|i: int, j: int|
        0 <= i < j < list.len() ==> !(#[trigger] list[i]).offer.id.is(
            (#[trigger] list[j]).offer.id,
        )
}

proof fn lemma_entries_differ(query: Seq<char>, offers: Seq<Offer>)
    requires
        offers_differ(offers),
    ensures
        entries_differ(entries(query, offers)),
    decreases offers.len(),
{
    if offers.len() > 0 {
        let shorter = offers.drop_last();
        assert forall|i: int, j: int| 0 <= i < j < shorter.len() implies !(
        #[trigger] shorter[i]).id.is((#[trigger] shorter[j]).id) by {
            assert(!offers[i].id.is(offers[j].id));
        }
        lemma_entries_differ(query, shorter);
        let all = entries(query, offers);
        let before = entries(query, shorter);
        assert forall|i: int, j: int| 0 <= i < j < all.len() implies !(
        #[trigger] all[i]).offer.id.is((#[trigger] all[j]).offer.id) by {
            if j < before.len() {
                assert(!before[i].offer.id.is(before[j].offer.id));
            } else {
                lemma_entry_is_offered(query, shorter, i);
                let k = choose|k: int|
                    0 <= k < shorter.len() && entry_of(query, #[trigger] shorter[k]) == Some(
                        before[i],
                    );
                assert(!offers[k].id.is(offers[offers.len() - 1].id));
            }
        }
    }
}

proof fn lemma_ranked_differ(all: Seq<Entry>)
    requires
        entries_differ(all),
    ensures
        entries_differ(ranked(all)),
    decreases all.len(),
{
    if all.len() > 0 {
        let shorter = all.drop_last();
        assert forall|i: int, j: int| 0 <= i < j < shorter.len() implies !(
        #[trigger] shorter[i]).offer.id.is((#[trigger] shorter[j]).offer.id) by {
            assert(!all[i].offer.id.is(all[j].offer.id));
        }
        lemma_ranked_differ(shorter);
        law_ranking_is_a_permutation(shorter);
        let list = ranked(shorter);
        let at = place(list, all.last());
        lemma_place(list, all.last());
        let after = list.insert(at, all.last());
        assert forall|i: int| 0 <= i < list.len() implies !(#[trigger] list[i]).offer.id.is(
            all.last().offer.id,
        ) by {
            broadcast use vstd::seq_lib::group_to_multiset_ensures;

            assert(list.contains(list[i]));
            assert(list.to_multiset().count(list[i]) > 0);
            assert(shorter.contains(list[i]));
            let k = choose|k: int| 0 <= k < shorter.len() && shorter[k] == list[i];
            assert(!all[k].offer.id.is(all[all.len() - 1].offer.id));
        }
        assert forall|i: int, j: int| 0 <= i < j < after.len() implies !(
        #[trigger] after[i]).offer.id.is((#[trigger] after[j]).offer.id) by {
            if i < at && j > at {
                assert(!list[i].offer.id.is(list[j - 1].offer.id));
            } else if i > at {
                assert(!list[i - 1].offer.id.is(list[j - 1].offer.id));
            } else if i == at {
                assert(!list[j - 1].offer.id.is(all.last().offer.id));
            } else if j < at {
                assert(!list[i].offer.id.is(list[j].offer.id));
            }
        }
    }
}

/// Offers that name different candidates make a list of different candidates.
pub proof fn law_candidates_differ(query: Seq<char>, offers: Seq<Offer>, limit: int)
    requires
        limit >= 0,
        offers_differ(offers),
    ensures
        candidates_differ(best_matches(query, offers, limit)),
{
    lemma_entries_differ(query, offers);
    lemma_ranked_differ(entries(query, offers));
    let order = ranked(entries(query, offers));
    let list = best_matches(query, offers, limit);
    assert forall|i: int, j: int| 0 <= i < j < list.len() implies !(#[trigger] list[i]).id.is(
        (#[trigger] list[j]).id,
    ) by {
        assert(!order[i].offer.id.is(order[j].offer.id));
    }
}

/// Entries that the order of the list does not tell apart name the same candidate.
proof fn lemma_rank_tells_apart(a: Entry, b: Entry)
    requires
        rank(a, b) is Same,
    ensures
        a.offer.id.is(b.offer.id),
{
    let left = a.offer.id.source.name();
    let right = b.offer.id.source.name();
    assert(text_key(left).take(0) =~= text_key(right).take(0));
    lemma_lex_same(text_key(left), text_key(right), 0);
    lemma_text_key_injective(left, right);
}

/// An entry is there as often as its offer, where that matches.
proof fn lemma_entry_count(query: Seq<char>, offers: Seq<Offer>, entry: Entry)
    ensures
        entries(query, offers).to_multiset().count(entry) == if entry_of(query, entry.offer)
            == Some(entry) {
            offers.to_multiset().count(entry.offer)
        } else {
            0
        },
    decreases offers.len(),
{
    broadcast use {
        vstd::seq_lib::group_to_multiset_ensures,
        vstd::multiset::group_multiset_axioms,
    };

    if offers.len() > 0 {
        let shorter = offers.drop_last();
        lemma_entry_count(query, shorter, entry);
        assert(offers =~= shorter.push(offers.last()));
        assert(offers.to_multiset() == shorter.to_multiset().insert(offers.last()));
        if let Some(last) = entry_of(query, offers.last()) {
            assert(entries(query, offers).to_multiset() == entries(
                query,
                shorter,
            ).to_multiset().insert(last));
        }
    } else {
        assert(offers.to_multiset().len() == 0);
        assert(entries(query, offers).to_multiset().len() == 0);
        assert(!offers.contains(entry.offer));
        assert(!entries(query, offers).contains(entry));
    }
}

/// There is only one way to put entries in order that the order tells apart.
proof fn lemma_one_order(left: Seq<Entry>, right: Seq<Entry>)
    requires
        left.to_multiset() == right.to_multiset(),
        in_rank_order(left),
        in_rank_order(right),
        entries_differ(left),
    ensures
        left == right,
    decreases left.len(),
{
    broadcast use vstd::seq_lib::group_to_multiset_ensures;

    assert(left.len() == left.to_multiset().len());
    assert(right.len() == right.to_multiset().len());
    if left.len() > 0 {
        let a = left[0];
        let b = right[0];
        assert(left.contains(a));
        assert(right.contains(b));
        assert(left.to_multiset().count(a) > 0);
        assert(right.to_multiset().count(b) > 0);
        assert(right.contains(a));
        assert(left.contains(b));
        let i = choose|i: int| 0 <= i < left.len() && left[i] == b;
        let j = choose|j: int| 0 <= j < right.len() && right[j] == a;
        if i > 0 {
            assert(!ahead(left[i], left[0]));
            if j > 0 {
                assert(!ahead(right[j], right[0]));
            }
            law_rank_flips(a, b);
            if rank(a, b) is Same {
                lemma_rank_tells_apart(a, b);
                assert(!left[0].offer.id.is(left[i].offer.id));
            }
        }
        assert(a == b);
        assert(left.remove(0).to_multiset() == right.remove(0).to_multiset());
        assert forall|p: int, q: int| 0 <= p < q < left.remove(0).len() implies !(
        #[trigger] left.remove(0)[p]).offer.id.is((#[trigger] left.remove(0)[q]).offer.id) by {
            assert(!left[p + 1].offer.id.is(left[q + 1].offer.id));
        }
        lemma_one_order(left.remove(0), right.remove(0));
        assert(left =~= seq![a] + left.remove(0));
        assert(right =~= seq![b] + right.remove(0));
    } else {
        assert(left =~= right);
    }
}

/// The order in which items are put forward does not matter, where each names another candidate.
pub proof fn law_order_of_offers_does_not_matter(
    query: Seq<char>,
    offers: Seq<Offer>,
    reordered: Seq<Offer>,
    limit: int,
)
    requires
        offers_differ(offers),
        reordered.to_multiset() == offers.to_multiset(),
    ensures
        best_matches(query, reordered, limit) == best_matches(query, offers, limit),
{
    let all = entries(query, offers);
    let other = entries(query, reordered);
    assert forall|entry: Entry| #[trigger] all.to_multiset().count(entry)
        == other.to_multiset().count(entry) by {
        lemma_entry_count(query, offers, entry);
        lemma_entry_count(query, reordered, entry);
    }
    assert(all.to_multiset() =~= other.to_multiset());
    law_ranking_is_a_permutation(all);
    law_ranking_is_a_permutation(other);
    lemma_ranked_in_order(all);
    lemma_ranked_in_order(other);
    lemma_entries_differ(query, offers);
    lemma_ranked_differ(all);
    lemma_one_order(ranked(all), ranked(other));
}

/// A shorter list is the start of a longer one, whatever the order in which items are put forward;
/// the shortest is empty.
pub proof fn law_shorter_list_is_a_prefix(
    query: Seq<char>,
    offers: Seq<Offer>,
    reordered: Seq<Offer>,
    few: int,
    many: int,
)
    requires
        0 <= few <= many,
        offers_differ(offers),
        reordered.to_multiset() == offers.to_multiset(),
    ensures
        best_matches(query, reordered, few) == first_few(best_matches(query, offers, many), few),
        few == 0 ==> best_matches(query, reordered, few) == Seq::<Match>::empty(),
{
    law_order_of_offers_does_not_matter(query, offers, reordered, few);
    assert(best_matches(query, offers, few) =~= first_few(best_matches(query, offers, many), few));
}

/// Lets a source pick a few items that will show up for a request. It only tells whether a text
/// matches: the engine filters and ranks on its own once a batch arrives.
pub struct CompletionPreviewProbe {
    query: FoldedQuery,
}

impl CompletionPreviewProbe {
    /// The query of the request.
    pub closed spec fn asked(self) -> Seq<char> {
        self.query.query()
    }

    /// The query is folded.
    pub closed spec fn valid(self) -> bool {
        self.query.valid()
    }

    pub(crate) fn new(query: &str) -> (probe: Self)
        ensures
            probe.valid(),
            probe.asked() == query@,
    {
        CompletionPreviewProbe { query: FoldedQuery::new(query) }
    }

    /// Whether `candidate` matches the query of the request.
    pub fn matches(&mut self, candidate: &str) -> (matches: bool)
        requires
            old(self).valid(),
        ensures
            final(self).valid(),
            final(self).asked() == old(self).asked(),
            matches == (match_positions(old(self).asked(), candidate@) is Some),
    {
        fuzzy_match(&mut self.query, candidate).is_some()
    }
}

/// The higher score comes first, whatever else is said of the items. Where the scores are equal,
/// the smaller sort text does, which is the label where an item has none; where these are equal,
/// the smaller label, then the earlier source, the smaller name of the source, the older batch and
/// the smaller ordinal.
pub proof fn law_rank_goes_by_score_first(a: Entry, b: Entry)
    ensures
        ({
            let a_sort = match a.offer.item.sort_text {
                Some(text) => chars_of(text),
                None => chars_of(a.offer.item.label),
            };
            let b_sort = match b.offer.item.sort_text {
                Some(text) => chars_of(text),
                None => chars_of(b.offer.item.label),
            };
            let a_label = chars_of(a.offer.item.label);
            let b_label = chars_of(b.offer.item.label);
            let a_name = a.offer.id.source.name();
            let b_name = b.offer.id.source.name();
            &&& a.score > b.score ==> ahead(a, b) && !ahead(b, a)
            &&& a.score == b.score ==> {
                &&& text_order(a_sort, b_sort) is Less ==> ahead(a, b) && !ahead(b, a)
                &&& a_sort == b_sort ==> {
                    &&& text_order(a_label, b_label) is Less ==> ahead(a, b) && !ahead(b, a)
                    &&& a_label == b_label ==> {
                        &&& a.offer.source_order < b.offer.source_order ==> ahead(a, b) && !ahead(
                            b,
                            a,
                        )
                        &&& a.offer.source_order == b.offer.source_order ==> {
                            &&& text_order(a_name, b_name) is Less ==> ahead(a, b) && !ahead(b, a)
                            &&& a_name == b_name ==> {
                                &&& a.offer.id.batch.0 < b.offer.id.batch.0 ==> ahead(a, b)
                                    && !ahead(b, a)
                                &&& a.offer.id.batch == b.offer.id.batch && a.offer.id.ordinal
                                    < b.offer.id.ordinal ==> ahead(a, b) && !ahead(b, a)
                            }
                        }
                    }
                }
            }
        }),
{
    law_rank_flips(a, b);
    law_texts_stand_by_their_bytes(sort_of(a.offer.item), sort_of(b.offer.item));
    law_texts_stand_by_their_bytes(chars_of(a.offer.item.label), chars_of(b.offer.item.label));
    law_texts_stand_by_their_bytes(a.offer.id.source.name(), b.offer.id.source.name());
}

/// An item is held against the query by its filter text, or by its label where it has none, and
/// its score is that of the positions and what its source adds to it.
pub proof fn law_entry_is_what_matches(query: Seq<char>, offer: Offer)
    ensures
        ({
            let text = match offer.item.filter_text {
                Some(text) => chars_of(text),
                None => chars_of(offer.item.label),
            };
            match entry_of(query, offer) {
                Some(entry) => {
                    &&& match_positions(query, text) == Some(entry.positions)
                    &&& entry.offer == offer
                    &&& i64::MIN <= score_of(entry.positions) + offer.item.source_bias <= i64::MAX
                        ==> entry.score == score_of(entry.positions) + offer.item.source_bias
                    &&& i64::MIN <= entry.score <= i64::MAX
                },
                None => match_positions(query, text) is None,
            }
        }),
{
}

/// What is put forward is the input: its source, batch, ordinal, item and the place of its source.
pub proof fn law_offer_is_the_input(input: MatchInput<'_>)
    ensures
        input.offer().id.source == *input.source,
        input.offer().id.batch == input.batch,
        input.offer().id.ordinal == input.ordinal,
        input.offer().item == *input.item,
        input.offer().source_order == input.source_order,
{
}

/// The entry of an offer that matches stands in the order of all entries, and is found there by
/// what it names.
proof fn lemma_where_ranked(query: Seq<char>, offers: Seq<Offer>, p: int) -> (at: int)
    requires
        offers_differ(offers),
        0 <= p < offers.len(),
        entry_of(query, offers[p]) is Some,
    ensures
        0 <= at < ranked(entries(query, offers)).len(),
        ranked(entries(query, offers))[at] == entry_of(query, offers[p])->0,
        forall|j: int|
            0 <= j < ranked(entries(query, offers)).len() && (#[trigger] ranked(
                entries(query, offers),
            )[j]).offer.id.is(offers[p].id) ==> j == at,
{
    broadcast use vstd::seq_lib::group_to_multiset_ensures;

    let all = entries(query, offers);
    let entry = entry_of(query, offers[p])->0;
    lemma_offer_is_entered(query, offers, p);
    law_ranking_is_a_permutation(all);
    assert(all.to_multiset().count(entry) > 0);
    assert(ranked(all).contains(entry));
    let at = choose|at: int| 0 <= at < ranked(all).len() && ranked(all)[at] == entry;
    lemma_entries_differ(query, offers);
    lemma_ranked_differ(all);
    assert forall|j: int|
        0 <= j < ranked(all).len() && (#[trigger] ranked(all)[j]).offer.id.is(
            offers[p].id,
        ) implies j == at by {
        if j < at {
            assert(!ranked(all)[j].offer.id.is(ranked(all)[at].offer.id));
        } else if j > at {
            assert(!ranked(all)[at].offer.id.is(ranked(all)[j].offer.id));
        }
    }
    at
}

/// No item of the list has a lower score than one that matches and stands behind it or is left
/// out, and among items with the same score none has a larger sort text than such a one.
pub proof fn law_best_scores_come_first(
    query: Seq<char>,
    offers: Seq<Offer>,
    limit: int,
    shown: int,
    other: int,
    i: int,
)
    requires
        limit >= 0,
        offers_differ(offers),
        0 <= shown < offers.len(),
        0 <= other < offers.len(),
        0 <= i < best_matches(query, offers, limit).len(),
        best_matches(query, offers, limit)[i].id.is(offers[shown].id),
        ({
            let text = match offers[other].item.filter_text {
                Some(text) => chars_of(text),
                None => chars_of(offers[other].item.label),
            };
            match_positions(query, text) is Some
        }),
        forall|j: int|
            0 <= j <= i ==> !(#[trigger] best_matches(query, offers, limit)[j]).id.is(
                offers[other].id,
            ),
    ensures
        ({
            let one = offers[shown].item;
            let two = offers[other].item;
            let one_text = match one.filter_text {
                Some(text) => chars_of(text),
                None => chars_of(one.label),
            };
            let two_text = match two.filter_text {
                Some(text) => chars_of(text),
                None => chars_of(two.label),
            };
            let one_sort = match one.sort_text {
                Some(text) => chars_of(text),
                None => chars_of(one.label),
            };
            let two_sort = match two.sort_text {
                Some(text) => chars_of(text),
                None => chars_of(two.label),
            };
            let one_score = nearest_i64(
                score_of(match_positions(query, one_text)->0) + one.source_bias,
            );
            let two_score = nearest_i64(
                score_of(match_positions(query, two_text)->0) + two.source_bias,
            );
            &&& match_positions(query, one_text) is Some
            &&& one_score >= two_score
            &&& one_score == two_score ==> !(text_order(two_sort, one_sort) is Less)
        }),
{
    let all = entries(query, offers);
    let order = ranked(all);
    let best = best_matches(query, offers, limit);
    lemma_ranked_in_order(all);
    assert(best[i].id == order[i].offer.id);
    law_candidates_match(query, offers, limit, i);
    let k = choose|k: int|
        0 <= k < offers.len() && (#[trigger] offers[k]).id == best[i].id && match_positions(
            query,
            filter_of(offers[k].item),
        ) == Some(best[i].positions);
    if k < shown {
        assert(!offers[k].id.is(offers[shown].id));
    } else if k > shown {
        assert(!offers[shown].id.is(offers[k].id));
    }
    let at = lemma_where_ranked(query, offers, shown);
    assert(order[i].offer.id.is(offers[shown].id));
    assert(at == i);
    let behind = lemma_where_ranked(query, offers, other);
    if behind <= i {
        assert(best[behind].id == order[behind].offer.id);
    }
    assert(!ahead(order[behind], order[i]));
    law_rank_goes_by_score_first(order[behind], order[i]);
}

} // verus!
