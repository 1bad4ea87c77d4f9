//! Completion sessions, matching and acceptance.
//!
//! Nothing here performs I/O or calls a provider or a frontend. Callers drive the engine with
//! [`CompletionEvent`] values, execute the returned [`CompletionEffect`]s, and render an owned
//! [`CompletionSnapshot`].

pub mod benchmark_support;
pub mod coherence;
pub mod engine;
pub mod event_laws;
pub mod fuzzy;
pub mod laws;
pub mod matcher;
pub mod model;
pub mod session;
pub mod session_laws;
pub mod state;

pub use engine::CompletionEngine;
pub use matcher::CompletionPreviewProbe;
pub use model::{
    CandidateId, CompletionAcceptance, CompletionBatch, CompletionBatchKind, CompletionCandidate,
    CompletionConfigError, CompletionEffect, CompletionEvent, CompletionInteractionState,
    CompletionItem, CompletionLimits, CompletionRequest, CompletionRequestContext,
    CompletionRequestSeed, CompletionSelectionChange, CompletionSessionId, CompletionSnapshot,
    CompletionSourceKey, CompletionTaskKey, CompletionTextRange, CompletionTrigger,
    IncompleteDirections, RequestEpoch, ResolveData, ResolveRequestKey, SelectionMove,
    SourceBatchVersion, SourceRequestKey,
};
