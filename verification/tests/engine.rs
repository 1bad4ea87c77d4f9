use vell::completion::session::SessionCapacities;
use vell::completion::{
    CandidateId, CompletionAcceptance, CompletionBatch, CompletionEffect, CompletionEngine,
    CompletionEvent, CompletionItem, CompletionLimits, CompletionRequest, CompletionRequestContext,
    CompletionRequestSeed, CompletionSourceKey, CompletionTextRange, CompletionTrigger,
    IncompleteDirections, RequestEpoch, ResolveData, SelectionMove, SourceBatchVersion,
};
use vell::protocol::{ContentId, Revision, Selection, TextOffset, ViewId};

fn seed(view: u64, query: &str) -> CompletionRequestSeed {
    let end = TextOffset {
        char_index: query.chars().count(),
    };
    CompletionRequestSeed::new(
        ViewId(view),
        ContentId(7),
        Revision(3),
        Revision(2),
        Selection::collapsed(end),
        CompletionTextRange::new(TextOffset::origin(), end).unwrap(),
        query,
        CompletionTrigger::Manual,
        CompletionRequestContext::new(Some("rust"), "main.rs", Some("src/main.rs"), query, ""),
    )
    .unwrap()
}

fn source(name: &str) -> CompletionSourceKey {
    CompletionSourceKey::from(name)
}

fn item(label: &str) -> CompletionItem {
    CompletionItem::new(label, label)
}

struct FakeSource(CompletionSourceKey);

impl FakeSource {
    fn new(name: &str) -> Self {
        Self(source(name))
    }

    fn key(&self) -> CompletionSourceKey {
        self.0.clone()
    }

    fn append(
        &self,
        request: &CompletionRequest,
        version: u64,
        sequence: u32,
        items: Vec<CompletionItem>,
        is_final: bool,
    ) -> CompletionBatch {
        CompletionBatch::append(
            request.source_key(self.key()),
            SourceBatchVersion(version),
            sequence,
            items,
            is_final,
            IncompleteDirections::default(),
        )
    }
}

fn start(
    engine: &mut CompletionEngine,
    seed: CompletionRequestSeed,
    sources: Vec<CompletionSourceKey>,
) -> CompletionRequest {
    let view = seed.view();
    engine.transition(CompletionEvent::Trigger {
        request: seed,
        sources,
    });
    engine.snapshot(view).unwrap().request
}

fn replace(
    request: &CompletionRequest,
    source: &CompletionSourceKey,
    version: u64,
    items: Vec<CompletionItem>,
    final_batch: bool,
) -> CompletionBatch {
    CompletionBatch::replace(
        request.source_key(source.clone()),
        SourceBatchVersion(version),
        items,
        final_batch,
        IncompleteDirections::default(),
    )
}

#[test]
fn tests_drive_sessions_only_through_transition_and_snapshot() {
    let mut engine = CompletionEngine::default();
    let request = start(
        &mut engine,
        seed(1, "pr"),
        vec![source("words"), source("lsp")],
    );
    engine.transition(CompletionEvent::InstallBatch(replace(
        &request,
        &source("words"),
        1,
        vec![
            item("println")
                .with_kind("function")
                .with_group("buffer")
                .deprecated(true),
            item("alpha"),
        ],
        true,
    )));
    let snapshot = engine.snapshot(ViewId(1)).unwrap();
    assert_eq!(snapshot.candidates.len(), 1);
    assert_eq!(&*snapshot.candidates[0].label, "println");
    assert_eq!(snapshot.candidates[0].kind.as_deref(), Some("function"));
    assert_eq!(snapshot.candidates[0].group.as_deref(), Some("buffer"));
    assert!(snapshot.candidates[0].deprecated);
    assert!(snapshot.collecting);
}

#[test]
fn snapshot_does_not_apply_filter_text_offsets_to_a_different_label() {
    let mut engine = CompletionEngine::default();
    let request = start(&mut engine, seed(1, "pr"), vec![source("words")]);
    engine.transition(CompletionEvent::InstallBatch(replace(
        &request,
        &source("words"),
        1,
        vec![item("display label").with_filter_text("print")],
        true,
    )));

    let snapshot = engine.snapshot(ViewId(1)).unwrap();
    assert_eq!(&*snapshot.candidates[0].label, "display label");
    assert!(snapshot.candidates[0].match_positions.is_empty());
}

#[test]
fn stale_start_and_previous_session_batch_cannot_replace_current_session() {
    let mut engine = CompletionEngine::default();
    let old = start(&mut engine, seed(1, "a"), vec![source("slow")]);
    let current = start(&mut engine, seed(1, "ab"), vec![source("slow")]);
    assert_eq!(old.session(), current.session());
    assert_eq!(old.epoch(), RequestEpoch(1));
    assert_eq!(current.epoch(), RequestEpoch(2));

    let effects = engine.transition(CompletionEvent::InstallBatch(replace(
        &old,
        &source("slow"),
        1,
        vec![item("abacus")],
        true,
    )));
    assert!(matches!(
        effects.as_slice(),
        [CompletionEffect::Ignored {
            reason: "stale request identity",
            ..
        }]
    ));
}

#[test]
fn streaming_requires_monotonic_sequence_and_preserves_selection() {
    let mut engine = CompletionEngine::default();
    let stream = FakeSource::new("stream");
    let request = start(&mut engine, seed(1, "a"), vec![stream.key()]);
    engine.transition(CompletionEvent::InstallBatch(replace(
        &request,
        &stream.key(),
        4,
        vec![item("alpha")],
        false,
    )));
    let selected = engine.snapshot(ViewId(1)).unwrap().selected.unwrap();
    let effects = engine.transition(CompletionEvent::InstallBatch(stream.append(
        &request,
        4,
        2,
        vec![item("amber")],
        false,
    )));
    assert!(matches!(
        effects.as_slice(),
        [CompletionEffect::Ignored {
            reason: "out-of-order source batch",
            ..
        }]
    ));
    engine.transition(CompletionEvent::InstallBatch(stream.append(
        &request,
        4,
        1,
        vec![item("amber")],
        true,
    )));
    let snapshot = engine.snapshot(ViewId(1)).unwrap();
    assert_eq!(snapshot.candidates.len(), 2);
    assert_eq!(snapshot.selected, Some(selected));
    assert!(!snapshot.collecting);
}

#[test]
fn selection_is_pinned_by_identity_when_it_falls_out_of_top_k() {
    let mut engine = CompletionEngine::new(CompletionLimits {
        visible_items: 2,
        ..CompletionLimits::default()
    })
    .unwrap();
    let first = source("first");
    let second = source("second");
    let request = start(
        &mut engine,
        seed(1, "a"),
        vec![first.clone(), second.clone()],
    );
    engine.transition(CompletionEvent::InstallBatch(replace(
        &request,
        &first,
        1,
        vec![item("aa"), item("ab")],
        true,
    )));
    engine.transition(CompletionEvent::MoveSelection {
        view: ViewId(1),
        movement: SelectionMove::Next,
    });
    assert_eq!(
        engine.snapshot(ViewId(1)).unwrap().selected,
        Some(CandidateId {
            source: first.clone(),
            batch: SourceBatchVersion(1),
            ordinal: 1,
        })
    );

    engine.transition(CompletionEvent::InstallBatch(replace(
        &request,
        &second,
        1,
        vec![item("a0")],
        true,
    )));
    let snapshot = engine.snapshot(ViewId(1)).unwrap();
    assert_eq!(snapshot.candidates.len(), 2);
    let selected = CandidateId {
        source: first,
        batch: SourceBatchVersion(1),
        ordinal: 1,
    };
    assert_eq!(snapshot.selected, Some(selected.clone()));
    assert_eq!(snapshot.candidates[1].id, selected);
    let effects = engine.transition(CompletionEvent::AcceptSelected { view: ViewId(1) });
    assert!(matches!(
        effects.as_slice(),
        [CompletionEffect::Accept(CompletionAcceptance { candidate, .. })]
            if candidate == &selected
    ));
}

#[test]
fn removed_selection_becomes_none_instead_of_changing_identity() {
    let mut engine = CompletionEngine::default();
    let words = source("words");
    let request = start(&mut engine, seed(1, "a"), vec![words.clone()]);
    engine.transition(CompletionEvent::InstallBatch(replace(
        &request,
        &words,
        1,
        vec![item("aa"), item("ab")],
        false,
    )));
    engine.transition(CompletionEvent::MoveSelection {
        view: ViewId(1),
        movement: SelectionMove::Next,
    });
    let old = engine.snapshot(ViewId(1)).unwrap().selected.unwrap();

    engine.transition(CompletionEvent::InstallBatch(replace(
        &request,
        &words,
        2,
        vec![item("aa"), item("ac")],
        true,
    )));
    let snapshot = engine.snapshot(ViewId(1)).unwrap();
    assert_eq!(snapshot.selected, None);
    assert!(
        snapshot
            .candidates
            .iter()
            .all(|candidate| candidate.id != old)
    );
    assert!(matches!(
        engine
            .transition(CompletionEvent::AcceptSelected { view: ViewId(1) })
            .as_slice(),
        [CompletionEffect::Ignored {
            reason: "no selected candidate",
            ..
        }]
    ));
}

#[test]
fn timeout_and_cancel_stop_collection() {
    let mut engine = CompletionEngine::default();
    let request = start(
        &mut engine,
        seed(1, "a"),
        vec![source("slow"), source("other")],
    );
    engine.transition(CompletionEvent::SourceTimedOut(
        request.source_key(source("slow")),
    ));
    assert!(engine.snapshot(ViewId(1)).unwrap().collecting);
    let effects = engine.transition(CompletionEvent::CancelView { view: ViewId(1) });
    assert_eq!(
        effects
            .iter()
            .filter(|effect| matches!(effect, CompletionEffect::CancelSource(_)))
            .count(),
        1
    );
    assert!(engine.snapshot(ViewId(1)).is_none());
}

#[test]
fn stale_resolve_cannot_replace_current_selection() {
    let mut engine = CompletionEngine::default();
    let request = start(&mut engine, seed(1, "a"), vec![source("words")]);
    engine.transition(CompletionEvent::InstallBatch(replace(
        &request,
        &source("words"),
        1,
        vec![item("alpha"), item("amber")],
        true,
    )));
    let resolve = engine.transition(CompletionEvent::ResolveSelected { view: ViewId(1) });
    let CompletionEffect::RequestResolve(key) = resolve[0].clone() else {
        panic!("selected candidate should request resolve");
    };
    engine.transition(CompletionEvent::MoveSelection {
        view: ViewId(1),
        movement: SelectionMove::Next,
    });
    let effects = engine.transition(CompletionEvent::InstallResolved {
        key,
        data: ResolveData {
            detail: Some("stale".into()),
            documentation: None,
        },
    });
    assert!(matches!(
        effects.as_slice(),
        [CompletionEffect::Ignored {
            reason: "stale resolve result",
            ..
        }]
    ));
}

#[test]
fn acceptance_is_frozen_and_session_closes_only_after_commit() {
    let mut engine = CompletionEngine::default();
    let request = start(&mut engine, seed(1, "pr"), vec![source("words")]);
    engine.transition(CompletionEvent::InstallBatch(replace(
        &request,
        &source("words"),
        1,
        vec![item("println")],
        true,
    )));
    let effects = engine.transition(CompletionEvent::AcceptSelected { view: ViewId(1) });
    let CompletionEffect::Accept(acceptance) = effects[0].clone() else {
        panic!("selected candidate should produce acceptance");
    };
    assert_eq!(&*acceptance.text, "println");
    assert_eq!(acceptance.range, request.range());
    assert!(engine.snapshot(ViewId(1)).is_some());
    engine.transition(CompletionEvent::AcceptanceCommitted {
        view: ViewId(1),
        task: acceptance.task,
        candidate: acceptance.candidate,
    });
    assert!(engine.snapshot(ViewId(1)).is_none());
}

#[test]
fn oversized_batch_ends_only_its_source_without_partial_install() {
    let mut engine = CompletionEngine::new(CompletionLimits {
        max_source_items: 1,
        ..CompletionLimits::default()
    })
    .unwrap();
    let request = start(
        &mut engine,
        seed(1, ""),
        vec![source("bad"), source("good")],
    );
    let effects = engine.transition(CompletionEvent::InstallBatch(replace(
        &request,
        &source("bad"),
        1,
        vec![item("alpha"), item("beta")],
        true,
    )));
    assert!(matches!(
        effects.as_slice(),
        [
            CompletionEffect::SourceFailed { .. },
            CompletionEffect::CancelSource(_),
            CompletionEffect::ViewChanged(_)
        ]
    ));
    let snapshot = engine.snapshot(ViewId(1)).unwrap();
    assert_eq!(snapshot.item_count, 0);
    assert!(snapshot.collecting);
    engine.transition(CompletionEvent::InstallBatch(replace(
        &request,
        &source("good"),
        1,
        vec![item("gamma")],
        true,
    )));
    assert!(!engine.snapshot(ViewId(1)).unwrap().collecting);
}

#[test]
fn equal_version_replace_is_ignored_without_changing_identity() {
    let mut engine = CompletionEngine::default();
    let request = start(&mut engine, seed(1, "a"), vec![source("words")]);
    engine.transition(CompletionEvent::InstallBatch(replace(
        &request,
        &source("words"),
        1,
        vec![item("alpha")],
        false,
    )));
    let before = engine.snapshot(ViewId(1)).unwrap();
    let effects = engine.transition(CompletionEvent::InstallBatch(replace(
        &request,
        &source("words"),
        1,
        vec![item("amber")],
        false,
    )));
    assert!(matches!(
        effects.as_slice(),
        [CompletionEffect::Ignored {
            reason: "out-of-order source batch",
            ..
        }]
    ));
    let after = engine.snapshot(ViewId(1)).unwrap();
    assert_eq!(before.candidates, after.candidates);
    assert_eq!(before.selected, after.selected);
}

#[test]
fn invalid_start_limits_do_not_replace_the_current_session() {
    let mut engine = CompletionEngine::new(CompletionLimits {
        max_context_bytes: 128,
        max_sources: 1,
        ..CompletionLimits::default()
    })
    .unwrap();
    let current = start(&mut engine, seed(1, "a"), vec![source("words")]);
    let oversized = CompletionRequestSeed::new(
        ViewId(1),
        ContentId(7),
        Revision(4),
        Revision(3),
        Selection::collapsed(TextOffset::origin()),
        CompletionTextRange::new(TextOffset::origin(), TextOffset::origin()).unwrap(),
        "",
        CompletionTrigger::Manual,
        CompletionRequestContext::new(
            Some("rust"),
            "main.rs",
            Some("src/main.rs"),
            "a context deliberately larger than the configured bound",
            "",
        ),
    )
    .unwrap();
    let effects = engine.transition(CompletionEvent::Trigger {
        request: oversized,
        sources: vec![source("words")],
    });
    assert!(matches!(
        effects.as_slice(),
        [CompletionEffect::Rejected {
            reason: "request context limit exceeded",
            ..
        }]
    ));
    assert_eq!(engine.snapshot(ViewId(1)).unwrap().request, current);

    let effects = engine.transition(CompletionEvent::Trigger {
        request: seed(1, "a"),
        sources: vec![source("first"), source("second")],
    });
    assert!(matches!(
        effects.as_slice(),
        [CompletionEffect::Rejected {
            reason: "source limit exceeded",
            ..
        }]
    ));
    assert_eq!(engine.snapshot(ViewId(1)).unwrap().request, current);
}

#[test]
fn invalid_resolve_faults_only_its_source_with_a_keyed_effect() {
    let mut engine = CompletionEngine::new(CompletionLimits {
        max_string_bytes: 16,
        ..CompletionLimits::default()
    })
    .unwrap();
    let request = start(&mut engine, seed(1, "a"), vec![source("words")]);
    engine.transition(CompletionEvent::InstallBatch(replace(
        &request,
        &source("words"),
        1,
        vec![item("alpha")],
        true,
    )));
    let resolve = engine.transition(CompletionEvent::ResolveSelected { view: ViewId(1) });
    let CompletionEffect::RequestResolve(key) = resolve[0].clone() else {
        panic!("selected candidate should request resolve");
    };
    let effects = engine.transition(CompletionEvent::InstallResolved {
        key,
        data: ResolveData {
            detail: Some("provider detail larger than bound".into()),
            documentation: None,
        },
    });
    assert!(matches!(
        effects.as_slice(),
        [
            CompletionEffect::SourceFailed {
                key,
                reason: "resolve string limit exceeded",
            },
            CompletionEffect::CancelSource(cancelled),
            CompletionEffect::ViewChanged(ViewId(1)),
        ] if key == cancelled && key.source().as_str() == "words"
    ));
    let retry = engine.transition(CompletionEvent::ResolveSelected { view: ViewId(1) });
    assert!(matches!(
        retry.as_slice(),
        [CompletionEffect::Ignored {
            reason: "selected source unavailable for resolve",
            ..
        }]
    ));
}

#[test]
fn late_resolve_is_ignored_after_source_timeout() {
    let mut engine = CompletionEngine::default();
    let request = start(&mut engine, seed(1, "a"), vec![source("slow")]);
    engine.transition(CompletionEvent::InstallBatch(replace(
        &request,
        &source("slow"),
        1,
        vec![item("alpha")],
        false,
    )));
    let resolve = engine.transition(CompletionEvent::ResolveSelected { view: ViewId(1) });
    let CompletionEffect::RequestResolve(key) = resolve[0].clone() else {
        panic!("selected candidate should request resolve");
    };
    engine.transition(CompletionEvent::SourceTimedOut(
        request.source_key(source("slow")),
    ));
    let effects = engine.transition(CompletionEvent::InstallResolved {
        key,
        data: ResolveData {
            detail: Some("late".into()),
            documentation: None,
        },
    });
    assert!(matches!(
        effects.as_slice(),
        [CompletionEffect::Ignored {
            reason: "stale resolve result",
            ..
        }]
    ));
    assert!(engine.snapshot(ViewId(1)).unwrap().resolved.is_none());
}

#[test]
fn engine_rejects_unrepresentable_limits() {
    let result = CompletionEngine::new(CompletionLimits {
        visible_items: usize::MAX,
        max_session_items: usize::MAX,
        max_session_bytes: usize::MAX,
        max_batch_bytes: usize::MAX,
        max_query_bytes: usize::MAX,
        max_context_bytes: usize::MAX,
        ..CompletionLimits::default()
    });
    assert_eq!(
        result.err().unwrap().reason(),
        "completion limits are inconsistent"
    );
}

#[test]
fn retained_batch_storage_has_exact_capacity() {
    let mut engine = CompletionEngine::new(CompletionLimits {
        max_source_items: 10,
        max_batch_bytes: 512 * 1024,
        max_session_bytes: 1024 * 1024,
        max_string_bytes: 64 * 1024,
        max_query_bytes: 1024,
        max_context_bytes: 64 * 1024,
        ..CompletionLimits::default()
    })
    .unwrap();
    let request = start(&mut engine, seed(1, "a"), vec![source("words")]);
    let mut items = Vec::with_capacity(100_000);
    items.push(item("alpha"));
    engine.transition(CompletionEvent::InstallBatch(replace(
        &request,
        &source("words"),
        1,
        items,
        true,
    )));
    let snapshot = engine.snapshot(ViewId(1)).unwrap();
    assert_eq!(snapshot.item_count, 1);
    assert!(snapshot.estimated_heap_bytes < 1024 * 1024);
}

#[test]
fn batch_limit_includes_an_existing_resolve_payload() {
    let mut engine = CompletionEngine::new(CompletionLimits {
        max_batch_bytes: 31 * 1024,
        max_session_bytes: 32 * 1024,
        max_string_bytes: 31 * 1024,
        max_query_bytes: 1024,
        max_context_bytes: 1024,
        ..CompletionLimits::default()
    })
    .unwrap();
    let request = start(&mut engine, seed(1, "a"), vec![source("words")]);
    engine.transition(CompletionEvent::InstallBatch(replace(
        &request,
        &source("words"),
        1,
        vec![item("alpha")],
        false,
    )));
    let resolve = engine.transition(CompletionEvent::ResolveSelected { view: ViewId(1) });
    let CompletionEffect::RequestResolve(key) = resolve[0].clone() else {
        panic!("selected candidate should request resolve");
    };
    let resolved = engine.transition(CompletionEvent::InstallResolved {
        key,
        data: ResolveData {
            detail: Some("d".repeat(16 * 1024).into()),
            documentation: None,
        },
    });
    assert!(matches!(
        resolved.as_slice(),
        [CompletionEffect::ViewChanged(ViewId(1))]
    ));
    let large = format!("a{}", "x".repeat(10 * 1024));
    let effects = engine.transition(CompletionEvent::InstallBatch(replace(
        &request,
        &source("words"),
        2,
        vec![CompletionItem::new(large.clone(), large)],
        true,
    )));
    assert!(matches!(
        effects.first(),
        Some(CompletionEffect::SourceFailed {
            reason: "session limit exceeded",
            ..
        })
    ));
}

#[test]
fn keys_are_the_same_where_their_texts_are() {
    assert!(CompletionSourceKey::new("words") == CompletionSourceKey::new("words".to_owned()));
    assert!(CompletionSourceKey::new("words") != CompletionSourceKey::new("Words"));
}

#[test]
fn the_probe_agrees_with_the_list() {
    for (query, label) in [("pr", "println"), ("pr", "rp"), ("", "x"), ("\u{e4}", "\u{c4}pfel")] {
        let mut engine = CompletionEngine::default();
        let request = start(&mut engine, seed(1, query), vec![source("words")]);
        let batch = replace(&request, &source("words"), 1, vec![item(label)], true);
        assert_eq!(
            engine.transition(CompletionEvent::InstallBatch(batch)),
            vec![CompletionEffect::ViewChanged(ViewId(1))]
        );
        let listed = engine.snapshot(ViewId(1)).unwrap().candidates.len() == 1;
        assert_eq!(request.preview_probe().matches(label), listed);
    }
}

#[test]
fn snapshots_keep_within_the_limits() {
    let limits = CompletionLimits {
        visible_items: 2,
        ..CompletionLimits::default()
    };
    let mut engine = CompletionEngine::new(limits).unwrap();
    let sources = vec![source("a"), source("b"), source("a")];
    let request = start(&mut engine, seed(4, ""), sources);
    for (name, version) in [("a", 1), ("b", 1), ("a", 2)] {
        let items = vec![item("one"), item("two"), item("three")];
        let batch = replace(&request, &source(name), version, items, false);
        engine.transition(CompletionEvent::InstallBatch(batch));
        engine.transition(CompletionEvent::MoveSelection {
            view: ViewId(4),
            movement: SelectionMove::Next,
        });
        let snapshot = engine.snapshot(ViewId(4)).unwrap();
        assert_eq!(snapshot.candidates.len(), 2);
        assert_eq!(snapshot.source_count, 2);
        assert_eq!(snapshot.sources.len(), 2);
        assert!(snapshot.candidates[0].id != snapshot.candidates[1].id);
        let selected = snapshot.selected.unwrap();
        assert!(snapshot.candidates.iter().any(|candidate| candidate.id == selected));
        assert_eq!(snapshot.request.view(), ViewId(4));
    }
    assert_eq!(engine.snapshot(ViewId(4)).unwrap().item_count, 6);
}

#[test]
fn as_many_nexts_as_candidates_come_back() {
    let mut engine = CompletionEngine::default();
    let request = start(&mut engine, seed(1, ""), vec![source("words")]);
    let items = vec![item("a"), item("b"), item("c")];
    let batch = replace(&request, &source("words"), 1, items, true);
    engine.transition(CompletionEvent::InstallBatch(batch));
    let mut step = |movement: SelectionMove| {
        engine.transition(CompletionEvent::MoveSelection {
            view: ViewId(1),
            movement,
        });
        let snapshot = engine.snapshot(ViewId(1)).unwrap();
        assert_eq!(snapshot.candidates.len(), 3);
        assert!(snapshot.resolved.is_none());
        snapshot.selected.map(|id| id.ordinal)
    };
    assert_eq!(step(SelectionMove::Next), Some(1));
    assert_eq!(step(SelectionMove::Next), Some(2));
    assert_eq!(step(SelectionMove::Next), Some(0));
    assert_eq!(step(SelectionMove::Previous), Some(2));
    assert_eq!(step(SelectionMove::Next), Some(0));
    assert_eq!(step(SelectionMove::Clear), None);
    assert_eq!(step(SelectionMove::Previous), Some(2));
    assert_eq!(step(SelectionMove::First), Some(0));
    assert_eq!(step(SelectionMove::Clear), None);
    assert_eq!(step(SelectionMove::Next), Some(0));
}

#[test]
fn a_source_stays_as_it_first_finished() {
    for failed in [false, true] {
        let mut engine = CompletionEngine::default();
        let request = start(&mut engine, seed(1, ""), vec![source("a"), source("b")]);
        let key = request.source_key(source("a"));
        let told = if failed {
            CompletionEvent::SourceFailed(key.clone())
        } else {
            CompletionEvent::SourceCompleted(key.clone())
        };
        assert_eq!(
            engine.transition(told),
            vec![CompletionEffect::ViewChanged(ViewId(1))]
        );
        let batch = replace(&request, &source("b"), 1, vec![item("x")], true);
        engine.transition(CompletionEvent::InstallBatch(batch));
        let before = engine.snapshot(ViewId(1)).unwrap();
        assert_eq!(before.source_faults, if failed { 1 } else { 0 });
        for again in [
            CompletionEvent::SourceCompleted(key.clone()),
            CompletionEvent::SourceFailed(key.clone()),
        ] {
            assert_eq!(
                engine.transition(again),
                vec![CompletionEffect::Ignored {
                    view: Some(ViewId(1)),
                    reason: "source already completed",
                }]
            );
            assert!(engine.snapshot(ViewId(1)).unwrap() == before);
        }
    }
}

#[test]
fn the_room_of_a_session_decides_whether_it_starts() {
    let roomy = |chunks: usize| SessionCapacities {
        source_order: 1,
        sources: 1,
        chunks: vec![chunks],
        matched: 0,
    };
    let mut engine = CompletionEngine::default();
    let effects = engine.start(seed(1, "x"), vec![source("a")], &roomy(usize::MAX));
    assert_eq!(
        effects,
        vec![CompletionEffect::Rejected {
            view: Some(ViewId(1)),
            reason: "session limit exceeded",
        }]
    );
    assert!(engine.snapshot(ViewId(1)).is_none());
    let effects = engine.start(seed(1, "x"), vec![source("a")], &roomy(0));
    assert_eq!(effects.len(), 2);
    assert!(matches!(effects[0], CompletionEffect::RequestSource { .. }));
    assert_eq!(effects[1], CompletionEffect::ViewChanged(ViewId(1)));
    assert_eq!(engine.snapshot(ViewId(1)).unwrap().request.epoch(), RequestEpoch(1));
}

#[test]
fn keys_stand_in_the_order_of_their_texts() {
    let texts = ["", "B", "a", "ab", "b", "\u{e4}", "\u{1f600}"];
    for left in texts {
        for right in texts {
            let (one, other) = (CompletionSourceKey::new(left), CompletionSourceKey::new(right));
            assert_eq!(one.partial_cmp(&other), Some(left.cmp(right)));
            assert_eq!(one.cmp(&other), left.cmp(right));
        }
    }
}
