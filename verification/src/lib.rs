//! WatchMind: a personal, explainable anime recommendation engine.
//!
//! The library holds the engine's data contracts, the offline import, the
//! candidate filter, the explanation of a score, the caps and the
//! feasibility search of the diversified selection, the evaluation harness,
//! and the decisions of the catalog, storage, command line and HTTP
//! adapters, each stated with its contract and proved. Binary64 numbers are held by their bit pattern (see [`ieee`]);
//! the arithmetic on them is done by the caller.

pub mod ieee;
pub mod domain;
pub mod text;
pub mod sort;
pub mod import;
pub mod scoring;
pub mod explanation;
pub mod candidates;
pub mod evaluation;
pub mod diversification;
pub mod affinity;
pub mod profile;
pub mod catalog;
pub mod storage;
pub mod cli;
pub mod api;
pub mod fusion;

pub use affinity::{AffinityConfig, AffinityError, EventSignals, RatingSignalKind, aggregate_events};
pub use candidates::{CandidateError, CandidateFilter, CandidateReport, CandidateRequest, CandidateSet};
pub use diversification::{
    DiversificationConfig, DiversificationError, ExplorationLabel, ExplorationSignal, LimitState,
    RecommendationKind, WorkKeys,
};
pub use domain::{
    AspectCredit, Contribution, ContributionSource, DomainError, DropProgress, NormalizedWork,
    PersonalAxis, Rating, RatingRecord, Ratio, ReleaseYear, RuntimeMinutes, ScoreDelta, TagWeight,
    WatchEvent, Weight, WorkFormat, WorkId,
};
pub use explanation::ScoreExplanation;
pub use evaluation::{BaselineKind, EvaluationCase, EvaluationError, RankSummary, TargetRank};
pub use import::{ImportError, ImportSummary, OfflineDataset};
pub use profile::{AxisProfile, AxisWeight, AxisWeightSource, ProfileError, ProfileMode, TasteProfileConfig};
pub use scoring::{RecommendationEngine, ScoringConfig, ScoringError};

use vstd::prelude::*;

verus! {

/// The stable engine name shared with every adapter.
pub fn engine_name() -> (name: &'static str)
    ensures
        name@ == "WatchMind"@,
{
    "WatchMind"
}

} // verus!
