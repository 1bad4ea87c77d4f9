//! Made-up corpora of completion items for measuring the matcher.

use crate::completion::matcher::{best_matches, found_of, match_top_k, offers_of, MatchInput, Offer};
use crate::completion::model::{
    CandidateId, CompletionItem, CompletionSourceKey, SourceBatchVersion,
};
use crate::text::{append_padded, chars_of, padded};
use vstd::prelude::*;
use vstd::string::{StrSliceExecFns, StringExecFns};

verus! {

/// What the labels of a corpus look like.
#[derive(Clone, Copy, Debug, PartialEq, Eq, Structural)]
pub enum CorpusKind {
    Ascii,
    Unicode,
    LongIdentifiers,
}

/// What every label of a corpus starts with.
pub open spec fn label_prefix(kind: CorpusKind) -> &'static str {
    match kind {
        CorpusKind::Ascii => "project_symbol_",
        CorpusKind::Unicode => "项目_Δοκιμή_символ_",
        CorpusKind::LongIdentifiers =>
            "project_subsystem_completion_provider_generated_identifier_",
    }
}

/// The label of item `index`: the prefix and the index in at least six digits.
pub open spec fn corpus_label(kind: CorpusKind, index: int) -> Seq<char> {
    label_prefix(kind)@ + padded(index as nat, 6)
}

/// The item has that text as its label and as what it inserts, and nothing else.
pub open spec fn is_plain_item(item: CompletionItem, text: Seq<char>) -> bool {
    &&& chars_of(item.label) == text
    &&& chars_of(item.insert_text) == text
    &&& item == (CompletionItem {
        label: item.label,
        filter_text: None,
        sort_text: None,
        insert_text: item.insert_text,
        insert_range: None,
        source_bias: 0,
        detail: None,
        kind: None,
        group: None,
        deprecated: false,
    })
}

/// A corpus of `size` items.
pub fn corpus(size: usize, kind: CorpusKind) -> (items: Vec<CompletionItem>)
    ensures
        items@.len() == size,
        forall|i: int|
            0 <= i < size ==> is_plain_item(#[trigger] items@[i], corpus_label(kind, i)),
{
    let mut items: Vec<CompletionItem> = Vec::new();
    let mut index: usize = 0;
    while index < size
        invariant
            index <= size,
            items@.len() == index,
            forall|i: int|
                0 <= i < index ==> is_plain_item(#[trigger] items@[i], corpus_label(kind, i)),
        decreases size - index,
    {
        let prefix = match kind {
            CorpusKind::Ascii => "project_symbol_",
            CorpusKind::Unicode => "项目_Δοκιμή_символ_",
            CorpusKind::LongIdentifiers =>
                "project_subsystem_completion_provider_generated_identifier_",
        };
        let mut label = String::from_str(prefix);
        append_padded(&mut label, index as u64, 6);
        let item = CompletionItem::new(label.clone(), label);
        items.push(item);
        index = index + 1;
    }
    items
}

/// The items as one source puts them forward.
pub open spec fn corpus_offers(key: CompletionSourceKey, items: Seq<CompletionItem>) -> Seq<Offer> {
    Seq::new(
        items.len(),
        |i: int|
            Offer {
                id: CandidateId { source: key, batch: SourceBatchVersion(1), ordinal: i as usize },
                item: items[i],
                source_order: 0,
            },
    )
}

/// How many of the items a query shows.
pub fn match_count(query: &str, items: &[CompletionItem], limit: usize) -> (count: usize)
    ensures
        exists|key: CompletionSourceKey|
            key.name() == "benchmark"@ && count == (#[trigger] best_matches(
                query@,
                corpus_offers(key, items@),
                limit as int,
            )).len(),
{
    let source = CompletionSourceKey::from("benchmark");
    let mut inputs: Vec<MatchInput<'_>> = Vec::new();
    let mut ordinal: usize = 0;
    while ordinal < items.len()
        invariant
            ordinal <= items.len(),
            inputs@.len() == ordinal,
            forall|i: int|
                0 <= i < ordinal ==> (#[trigger] inputs@[i]).offer() == corpus_offers(
                    source,
                    items@,
                )[i],
        decreases items.len() - ordinal,
    {
        inputs.push(
            MatchInput {
                source: &source,
                batch: SourceBatchVersion(1),
                ordinal,
                item: &items[ordinal],
                source_order: 0,
            },
        );
        ordinal = ordinal + 1;
    }
    assert(offers_of(inputs@) =~= corpus_offers(source, items@));
    let best = match_top_k(query, inputs, limit);
    assert(found_of(best@).len() == best.len());
    best.len()
}

/// The labels of a corpus are what its kind starts them with and the index in six digits or more;
/// an item brings its label and inserts the same text.
pub proof fn law_corpus_items(
    kind: CorpusKind,
    index: int,
    item: CompletionItem,
    key: CompletionSourceKey,
    items: Seq<CompletionItem>,
)
    requires
        0 <= index,
        is_plain_item(item, corpus_label(kind, index)),
    ensures
        kind is Ascii ==> chars_of(item.label) == "project_symbol_"@ + padded(index as nat, 6),
        kind is Unicode ==> chars_of(item.label) == "项目_Δοκιμή_символ_"@ + padded(index as nat, 6),
        kind is LongIdentifiers ==> chars_of(item.label)
            == "project_subsystem_completion_provider_generated_identifier_"@ + padded(
            index as nat,
            6,
        ),
        chars_of(item.insert_text) == chars_of(item.label),
        item.filter_text is None && item.sort_text is None && item.insert_range is None,
        item.source_bias == 0 && !item.deprecated,
        corpus_offers(key, items).len() == items.len(),
        index < items.len() <= usize::MAX ==> {
            let offer = corpus_offers(key, items)[index];
            &&& offer.item == items[index]
            &&& offer.id.source == key
            &&& offer.id.ordinal == index
            &&& offer.source_order == 0
        },
{
}

} // verus!
