use vell::completion::benchmark_support::{corpus, CorpusKind};
use std::collections::HashMap;
use vell::completion::fuzzy::{fuzzy_match, fuzzy_match_unicode, match_score, FoldedQuery};
use vell::completion::matcher::{match_top_k, MatchInput};
use vell::completion::{CompletionItem, CompletionSourceKey, SourceBatchVersion};

#[test]
fn unicode_case_fold_keeps_original_character_positions() {
    let (_, positions) = fuzzy_match(&mut FoldedQuery::new("äb"), "ÄxxB").unwrap();
    assert_eq!(positions, vec![0, 3]);
}

#[test]
fn query_must_be_a_subsequence() {
    assert!(fuzzy_match(&mut FoldedQuery::new("abc"), "acb").is_none());
}

#[test]
fn top_k_is_stable_when_scores_tie() {
    let source = CompletionSourceKey::from("test");
    let items = ["ax", "ab", "aa"].map(|label| CompletionItem::new(label, label));
    let matched = match_top_k(
        "a",
        items
            .iter()
            .enumerate()
            .map(|(ordinal, item)| MatchInput {
                source: &source,
                batch: SourceBatchVersion(1),
                ordinal,
                item,
                source_order: 0,
            })
            .collect(),
        2,
    );
    assert_eq!(
        matched
            .iter()
            .map(|candidate| items[candidate.id.ordinal].label.as_ref())
            .collect::<Vec<_>>(),
        ["aa", "ab"]
    );
}

#[test]
fn benchmark_corpora_have_required_scales_and_shapes() {
    for size in [1_000, 10_000, 100_000] {
        assert_eq!(corpus(size, CorpusKind::Ascii).len(), size);
        assert_eq!(corpus(size, CorpusKind::Unicode).len(), size);
        let long = corpus(size, CorpusKind::LongIdentifiers);
        assert_eq!(long.len(), size);
        assert!(long[0].label.len() > 48);
    }
}

#[test]
fn text_after_a_match_changes_nothing() {
    for (query, candidate) in [("fb", "FooBar"), ("äb", "ÄxxB"), ("k", "\u{212a}x")] {
        let found = fuzzy_match(&mut FoldedQuery::new(query), candidate);
        assert!(found.is_some());
        for more in ["", "Baz", "\u{df}\u{e4}"] {
            let longer = format!("{candidate}{more}");
            assert_eq!(fuzzy_match(&mut FoldedQuery::new(query), &longer), found);
        }
    }
    for candidate in ["", "word", "\u{e9}t\u{e9}"] {
        assert_eq!(fuzzy_match(&mut FoldedQuery::new(""), candidate), Some((0, Vec::new())));
    }
}

#[test]
fn any_table_of_upper_cases_will_do() {
    let needle = ['a', 'b', 'c'];
    let mut cache = HashMap::new();
    let table = [None, Some('x'), None];
    assert_eq!(
        fuzzy_match_unicode(&needle, &table, &mut cache, "abc"),
        Some((1000 + 39 * 2, vec![0, 1, 2]))
    );
    assert_eq!(
        fuzzy_match_unicode(&needle, &table, &mut cache, "-ax-c"),
        Some((match_score(&[1, 2, 4]), vec![1, 2, 4]))
    );
    assert_eq!(fuzzy_match_unicode(&needle, &table, &mut cache, "acb"), None);
    assert_eq!(match_score(&[1, 2, 4]), 37);
}

#[test]
fn the_order_of_the_candidates_does_not_matter() {
    let source = CompletionSourceKey::from("test");
    let items = ["bab", "ab", "abc", "b", "cab"].map(|label| CompletionItem::new(label, label));
    let found = |order: &[usize], limit: usize| -> Vec<usize> {
        let inputs = order
            .iter()
            .map(|ordinal| MatchInput {
                source: &source,
                batch: SourceBatchVersion(1),
                ordinal: *ordinal,
                item: &items[*ordinal],
                source_order: 0,
            })
            .collect();
        match_top_k("ab", inputs, limit).iter().map(|matched| matched.id.ordinal).collect()
    };
    let all = found(&[0, 1, 2, 3, 4], 10);
    assert_eq!(all, vec![1, 2, 0, 4]);
    for limit in 0..6 {
        assert_eq!(found(&[4, 2, 3, 0, 1], limit), all[..limit.min(all.len())].to_vec());
    }
}
