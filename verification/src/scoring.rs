//! The settings of the explainable score and the engine that carries them.
//!
//! The score itself is a sum of binary64 products; the library validates the
//! weights it is built from, each held by its bit pattern.

use vstd::prelude::*;
use crate::domain::{DomainError, domain_message};
use crate::ieee::{is_finite, less_than, within, ZERO_BITS, ONE_BITS};

verus! {

/// The pattern of `0.35`, the default weight of the pole similarity.
pub const POLE_SIMILARITY_BITS: u64 = 0x3FD6_6666_6666_6666;

/// The pattern of `0.10`, the default weight of the AniList prior.
pub const ANILIST_PRIOR_BITS: u64 = 0x3FB9_9999_9999_999A;

/// The pattern of `0.25`, the largest weight the AniList prior may have.
pub const PRIOR_CEILING_BITS: u64 = 0x3FD0_0000_0000_0000;

/// A configuration or computation failure of the score.
#[derive(Debug, Clone, PartialEq)]
pub enum ScoringError {
    InvalidConfiguration { field: &'static str, reason: &'static str },
    Domain(DomainError),
}

/// The outcome of checking that a weight is finite and greater than zero.
pub open spec fn positive_check(field: &'static str, bits: u64) -> Result<u64, ScoringError> {
    if !is_finite(bits) || !less_than(ZERO_BITS, bits) {
        Err(ScoringError::InvalidConfiguration { field, reason: "must be finite and greater than zero" })
    } else {
        Ok(bits)
    }
}

/// The outcome of checking that a weight is a finite number in `[0, upper]`.
pub open spec fn bounded_check(field: &'static str, bits: u64, upper: u64) -> Result<u64, ScoringError> {
    if !is_finite(bits) || !within(bits, upper) {
        Err(ScoringError::InvalidConfiguration { field, reason: "is outside the allowed range" })
    } else {
        Ok(bits)
    }
}

fn validate_positive(field: &'static str, bits: u64) -> (result: Result<u64, ScoringError>)
    ensures
        result == positive_check(field, bits),
{
    if !crate::ieee::finite(bits) || !crate::ieee::lower(ZERO_BITS, bits) {
        return Err(ScoringError::InvalidConfiguration { field, reason: "must be finite and greater than zero" });
    }
    Ok(bits)
}

fn validate_range(field: &'static str, bits: u64, upper: u64) -> (result: Result<u64, ScoringError>)
    requires
        is_finite(upper),
    ensures
        result == bounded_check(field, bits, upper),
{
    if !crate::ieee::finite(bits) || !crate::ieee::in_range(bits, upper) {
        return Err(ScoringError::InvalidConfiguration { field, reason: "is outside the allowed range" });
    }
    Ok(bits)
}

/// The weights of the explainable score, each held by its binary64 pattern.
#[derive(Debug, Clone, Copy, PartialEq)]
pub struct ScoringConfig {
    tag_affinity: u64,
    negative_tag_penalty: u64,
    pole_similarity: u64,
    anilist_prior: u64,
}

impl ScoringConfig {
    /// The weight of a learned tag affinity.
    pub closed spec fn spec_tag_affinity(self) -> u64 {
        self.tag_affinity
    }

    /// The weight of a learned tag risk.
    pub closed spec fn spec_negative_tag_penalty(self) -> u64 {
        self.negative_tag_penalty
    }

    /// The weight of the closest taste pole.
    pub closed spec fn spec_pole_similarity(self) -> u64 {
        self.pole_similarity
    }

    /// The weight of the AniList prior.
    pub closed spec fn spec_anilist_prior(self) -> u64 {
        self.anilist_prior
    }

    /// Validates the weights in order: the three affinity weights must be
    /// finite and greater than zero, the AniList prior must stay weak, in
    /// `[0, 0.25]`.
    pub fn new(tag_affinity: u64, negative_tag_penalty: u64, pole_similarity: u64, anilist_prior: u64) -> (result: Result<ScoringConfig, ScoringError>)
        ensures
            match (
                positive_check("tag_affinity_weight", tag_affinity),
                positive_check("negative_tag_penalty_weight", negative_tag_penalty),
                positive_check("pole_similarity_weight", pole_similarity),
                bounded_check("anilist_prior_weight", anilist_prior, PRIOR_CEILING_BITS),
            ) {
                (Err(e), _, _, _) => result == Err::<ScoringConfig, ScoringError>(e),
                (Ok(_), Err(e), _, _) => result == Err::<ScoringConfig, ScoringError>(e),
                (Ok(_), Ok(_), Err(e), _) => result == Err::<ScoringConfig, ScoringError>(e),
                (Ok(_), Ok(_), Ok(_), Err(e)) => result == Err::<ScoringConfig, ScoringError>(e),
                (Ok(_), Ok(_), Ok(_), Ok(_)) => result matches Ok(c)
                    && c.spec_tag_affinity() == tag_affinity
                    && c.spec_negative_tag_penalty() == negative_tag_penalty
                    && c.spec_pole_similarity() == pole_similarity
                    && c.spec_anilist_prior() == anilist_prior,
            },
    {
        validate_positive("tag_affinity_weight", tag_affinity)?;
        validate_positive("negative_tag_penalty_weight", negative_tag_penalty)?;
        validate_positive("pole_similarity_weight", pole_similarity)?;
        validate_range("anilist_prior_weight", anilist_prior, PRIOR_CEILING_BITS)?;
        Ok(ScoringConfig { tag_affinity, negative_tag_penalty, pole_similarity, anilist_prior })
    }

    /// The weight of a learned tag affinity.
    pub fn tag_affinity_weight(&self) -> (bits: u64)
        ensures
            bits == self.spec_tag_affinity(),
    {
        self.tag_affinity
    }

    /// The weight of a learned tag risk.
    pub fn negative_tag_penalty_weight(&self) -> (bits: u64)
        ensures
            bits == self.spec_negative_tag_penalty(),
    {
        self.negative_tag_penalty
    }

    /// The weight of the closest taste pole.
    pub fn pole_similarity_weight(&self) -> (bits: u64)
        ensures
            bits == self.spec_pole_similarity(),
    {
        self.pole_similarity
    }

    /// The weight of the AniList prior.
    pub fn anilist_prior_weight(&self) -> (bits: u64)
        ensures
            bits == self.spec_anilist_prior(),
    {
        self.anilist_prior
    }
}

impl Default for ScoringConfig {
    /// The V1 weights: `1.0`, `1.0`, `0.35` and `0.10`.
    fn default() -> (config: Self)
        ensures
            config.spec_tag_affinity() == ONE_BITS,
            config.spec_negative_tag_penalty() == ONE_BITS,
            config.spec_pole_similarity() == POLE_SIMILARITY_BITS,
            config.spec_anilist_prior() == ANILIST_PRIOR_BITS,
    {
        ScoringConfig {
            tag_affinity: ONE_BITS,
            negative_tag_penalty: ONE_BITS,
            pole_similarity: POLE_SIMILARITY_BITS,
            anilist_prior: ANILIST_PRIOR_BITS,
        }
    }
}

/// The offline engine: candidate generation, then scoring under its weights.
#[derive(Debug, Clone, Copy, PartialEq)]
pub struct RecommendationEngine {
    scoring: ScoringConfig,
}

impl RecommendationEngine {
    /// The weights of the score.
    pub closed spec fn spec_scoring(self) -> ScoringConfig {
        self.scoring
    }

    /// Builds an engine with these score weights.
    pub fn new(scoring: ScoringConfig) -> (engine: RecommendationEngine)
        ensures
            engine.spec_scoring() == scoring,
    {
        RecommendationEngine { scoring }
    }

    /// The weights of the score.
    pub fn scoring(&self) -> (scoring: ScoringConfig)
        ensures
            scoring == self.spec_scoring(),
    {
        self.scoring
    }
}

impl Default for RecommendationEngine {
    /// An engine with the V1 weights.
    fn default() -> (engine: Self)
        ensures
            engine.spec_scoring().spec_tag_affinity() == ONE_BITS,
            engine.spec_scoring().spec_negative_tag_penalty() == ONE_BITS,
            engine.spec_scoring().spec_pole_similarity() == POLE_SIMILARITY_BITS,
            engine.spec_scoring().spec_anilist_prior() == ANILIST_PRIOR_BITS,
    {
        RecommendationEngine { scoring: ScoringConfig::default() }
    }
}

/// The message of a scoring failure.
pub open spec fn scoring_message(e: ScoringError) -> Seq<char> {
    match e {
        ScoringError::InvalidConfiguration { field, reason } => "invalid scoring configuration "@ + field@ + ": "@ + reason@,
        ScoringError::Domain(inner) => "cannot score recommendation: "@ + domain_message(inner),
    }
}

impl ScoringError {
    /// The message of the failure.
    pub fn message(&self) -> (text: String)
        ensures
            text@ == scoring_message(*self),
    {
        match self {
            ScoringError::InvalidConfiguration { field, reason } => {
                let mut text = String::from_str("invalid scoring configuration ");
                text.append(field);
                text.append(": ");
                text.append(reason);
                text
            },
            ScoringError::Domain(inner) => {
                let mut text = String::from_str("cannot score recommendation: ");
                text.append(inner.message().as_str());
                text
            },
        }
    }
}

} // verus!
