//! The settings of the taste profile and its exact parts: the mode and
//! error vocabulary, the tag key shared with the diversification, and the
//! distribution over the five personal axes.
//!
//! Tag affinities, poles and clusters are binary64 computations made by the
//! caller.

use vstd::prelude::*;
use crate::affinity::{AffinityConfig, AffinityError, affinity_message};
use crate::domain::{PersonalAxis, Ratio, WorkId};
use crate::ieee::{is_finite, less_than, ZERO_BITS};
use crate::text::{decimal_of, lowercase_of};

verus! {

/// Why the profile has a single fallback pole, or a full clustering.
#[derive(Debug, Clone, Copy, PartialEq, Eq, Structural)]
pub enum ProfileMode {
    SparseHistory,
    SparseFavorites,
    Clustered,
}

/// Where the axis weights come from.
#[derive(Debug, Clone, Copy, PartialEq, Eq, Structural)]
pub enum AxisWeightSource {
    Learned,
    Prior,
}

/// An explicit failure of the profile construction.
#[derive(Debug, Clone, PartialEq, Eq)]
pub enum ProfileError {
    Affinity(AffinityError),
    HistoryTooLarge,
    MissingCatalogWork { work_id: WorkId },
    InvalidComputedValue { field: &'static str },
    InvalidConfiguration { field: &'static str, reason: &'static str },
}

/// Refuses a count of zero.
pub fn validate_positive_count(field: &'static str, value: usize) -> (result: Result<(), ProfileError>)
    ensures
        value == 0 ==> result == Err::<(), ProfileError>(ProfileError::InvalidConfiguration { field, reason: "must be greater than zero" }),
        value > 0 ==> result is Ok,
{
    if value == 0 {
        return Err(ProfileError::InvalidConfiguration { field, reason: "must be greater than zero" });
    }
    Ok(())
}

/// The settings of the profile, numbers held by their binary64 pattern.
pub ghost struct ProfileView {
    pub affinity: AffinityConfig,
    pub tag_shrinkage: u64,
    pub tag_confidence_shrinkage: u64,
    pub minimum_history_for_clustering: nat,
    pub favorite_affinity_threshold: u64,
    pub dominant_tags_per_pole: nat,
    pub representative_works_per_pole: nat,
    pub minimum_axis_observations: nat,
}

fn finite_setting(field: &'static str, bits: u64) -> (result: Result<(), ProfileError>)
    ensures
        !is_finite(bits) ==> result == Err::<(), ProfileError>(ProfileError::InvalidConfiguration { field, reason: "must be finite" }),
        is_finite(bits) ==> result is Ok,
{
    if !crate::ieee::finite(bits) {
        return Err(ProfileError::InvalidConfiguration { field, reason: "must be finite" });
    }
    Ok(())
}

/// The outcome of validating the settings, checks taken in order.
pub open spec fn profile_check(v: ProfileView) -> Result<(), ProfileError> {
    if !is_finite(v.tag_shrinkage) {
        Err(ProfileError::InvalidConfiguration { field: "tag_shrinkage", reason: "must be finite" })
    } else if !less_than(ZERO_BITS, v.tag_shrinkage) {
        Err(ProfileError::InvalidConfiguration { field: "tag_shrinkage", reason: "must be greater than zero" })
    } else if !is_finite(v.tag_confidence_shrinkage) {
        Err(ProfileError::InvalidConfiguration { field: "tag_confidence_shrinkage", reason: "must be finite" })
    } else if less_than(v.tag_confidence_shrinkage, ZERO_BITS) {
        Err(ProfileError::InvalidConfiguration { field: "tag_confidence_shrinkage", reason: "must not be negative" })
    } else if v.minimum_history_for_clustering == 0 {
        Err(ProfileError::InvalidConfiguration { field: "minimum_history_for_clustering", reason: "must be greater than zero" })
    } else if !is_finite(v.favorite_affinity_threshold) {
        Err(ProfileError::InvalidConfiguration { field: "favorite_affinity_threshold", reason: "must be finite" })
    } else if less_than(v.favorite_affinity_threshold, ZERO_BITS) {
        Err(ProfileError::InvalidConfiguration { field: "favorite_affinity_threshold", reason: "must not be negative" })
    } else if v.dominant_tags_per_pole == 0 {
        Err(ProfileError::InvalidConfiguration { field: "dominant_tags_per_pole", reason: "must be greater than zero" })
    } else if v.representative_works_per_pole == 0 {
        Err(ProfileError::InvalidConfiguration { field: "representative_works_per_pole", reason: "must be greater than zero" })
    } else if v.minimum_axis_observations == 0 {
        Err(ProfileError::InvalidConfiguration { field: "minimum_axis_observations", reason: "must be greater than zero" })
    } else {
        Ok(())
    }
}

/// Validated settings of the taste profile.
#[derive(Debug, Clone, Copy, PartialEq)]
pub struct TasteProfileConfig {
    affinity: AffinityConfig,
    tag_shrinkage: u64,
    tag_confidence_shrinkage: u64,
    minimum_history_for_clustering: usize,
    favorite_affinity_threshold: u64,
    dominant_tags_per_pole: usize,
    representative_works_per_pole: usize,
    minimum_axis_observations: usize,
}

impl View for TasteProfileConfig {
    type V = ProfileView;

    closed spec fn view(&self) -> ProfileView {
        ProfileView {
            affinity: self.affinity,
            tag_shrinkage: self.tag_shrinkage,
            tag_confidence_shrinkage: self.tag_confidence_shrinkage,
            minimum_history_for_clustering: self.minimum_history_for_clustering as nat,
            favorite_affinity_threshold: self.favorite_affinity_threshold,
            dominant_tags_per_pole: self.dominant_tags_per_pole as nat,
            representative_works_per_pole: self.representative_works_per_pole as nat,
            minimum_axis_observations: self.minimum_axis_observations as nat,
        }
    }
}

impl TasteProfileConfig {
    /// Validates the settings; the first failing check gives the error.
    pub fn new(
        affinity: AffinityConfig,
        tag_shrinkage: u64,
        tag_confidence_shrinkage: u64,
        minimum_history_for_clustering: usize,
        favorite_affinity_threshold: u64,
        dominant_tags_per_pole: usize,
        representative_works_per_pole: usize,
        minimum_axis_observations: usize,
    ) -> (result: Result<TasteProfileConfig, ProfileError>)
        ensures
            ({
                let v = ProfileView {
                    affinity,
                    tag_shrinkage,
                    tag_confidence_shrinkage,
                    minimum_history_for_clustering: minimum_history_for_clustering as nat,
                    favorite_affinity_threshold,
                    dominant_tags_per_pole: dominant_tags_per_pole as nat,
                    representative_works_per_pole: representative_works_per_pole as nat,
                    minimum_axis_observations: minimum_axis_observations as nat,
                };
                match profile_check(v) {
                    Err(e) => result == Err::<TasteProfileConfig, ProfileError>(e),
                    Ok(_) => result matches Ok(c) && c@ == v,
                }
            }),
    {
        finite_setting("tag_shrinkage", tag_shrinkage)?;
        if !crate::ieee::lower(ZERO_BITS, tag_shrinkage) {
            return Err(ProfileError::InvalidConfiguration { field: "tag_shrinkage", reason: "must be greater than zero" });
        }
        finite_setting("tag_confidence_shrinkage", tag_confidence_shrinkage)?;
        if crate::ieee::lower(tag_confidence_shrinkage, ZERO_BITS) {
            return Err(ProfileError::InvalidConfiguration { field: "tag_confidence_shrinkage", reason: "must not be negative" });
        }
        validate_positive_count("minimum_history_for_clustering", minimum_history_for_clustering)?;
        finite_setting("favorite_affinity_threshold", favorite_affinity_threshold)?;
        if crate::ieee::lower(favorite_affinity_threshold, ZERO_BITS) {
            return Err(ProfileError::InvalidConfiguration { field: "favorite_affinity_threshold", reason: "must not be negative" });
        }
        validate_positive_count("dominant_tags_per_pole", dominant_tags_per_pole)?;
        validate_positive_count("representative_works_per_pole", representative_works_per_pole)?;
        validate_positive_count("minimum_axis_observations", minimum_axis_observations)?;
        Ok(TasteProfileConfig {
            affinity,
            tag_shrinkage,
            tag_confidence_shrinkage,
            minimum_history_for_clustering,
            favorite_affinity_threshold,
            dominant_tags_per_pole,
            representative_works_per_pole,
            minimum_axis_observations,
        })
    }

    /// The settings of the affinity computation.
    pub fn affinity(&self) -> (config: AffinityConfig) ensures config == self@.affinity, { self.affinity }

    /// The shrinkage of a tag affinity towards zero.
    pub fn tag_shrinkage(&self) -> (bits: u64) ensures bits == self@.tag_shrinkage, { self.tag_shrinkage }

    /// The shrinkage of a tag confidence.
    pub fn tag_confidence_shrinkage(&self) -> (bits: u64) ensures bits == self@.tag_confidence_shrinkage, { self.tag_confidence_shrinkage }

    /// The history size from which favourites are clustered.
    pub fn minimum_history_for_clustering(&self) -> (count: usize) ensures count == self@.minimum_history_for_clustering, { self.minimum_history_for_clustering }

    /// The affinity from which a work counts as a favourite.
    pub fn favorite_affinity_threshold(&self) -> (bits: u64) ensures bits == self@.favorite_affinity_threshold, { self.favorite_affinity_threshold }

    /// The number of tags in a pole signature.
    pub fn dominant_tags_per_pole(&self) -> (count: usize) ensures count == self@.dominant_tags_per_pole, { self.dominant_tags_per_pole }

    /// The number of works that represent a pole.
    pub fn representative_works_per_pole(&self) -> (count: usize) ensures count == self@.representative_works_per_pole, { self.representative_works_per_pole }

    /// The annotated works needed before axis weights are learned.
    pub fn minimum_axis_observations(&self) -> (count: usize) ensures count == self@.minimum_axis_observations, { self.minimum_axis_observations }
}

/// The pattern of `2.0`.
pub const TAG_SHRINKAGE_BITS: u64 = 0x4000_0000_0000_0000;

/// The pattern of `150.0`.
pub const TAG_CONFIDENCE_SHRINKAGE_BITS: u64 = 0x4062_C000_0000_0000;

/// The pattern of `0.25`.
pub const FAVORITE_AFFINITY_BITS: u64 = 0x3FD0_0000_0000_0000;

impl Default for TasteProfileConfig {
    /// The V1 settings: the default affinity, tag shrinkage `2.0`, confidence
    /// shrinkage `150.0`, clustering from 30 works, favourites from `0.25`,
    /// five tags and three works per pole, ten annotated works for the axes.
    fn default() -> (config: Self)
        ensures
            config@.tag_shrinkage == TAG_SHRINKAGE_BITS,
            config@.tag_confidence_shrinkage == TAG_CONFIDENCE_SHRINKAGE_BITS,
            config@.minimum_history_for_clustering == 30,
            config@.favorite_affinity_threshold == FAVORITE_AFFINITY_BITS,
            config@.dominant_tags_per_pole == 5,
            config@.representative_works_per_pole == 3,
            config@.minimum_axis_observations == 10,
    {
        TasteProfileConfig {
            affinity: AffinityConfig::default(),
            tag_shrinkage: TAG_SHRINKAGE_BITS,
            tag_confidence_shrinkage: TAG_CONFIDENCE_SHRINKAGE_BITS,
            minimum_history_for_clustering: 30,
            favorite_affinity_threshold: FAVORITE_AFFINITY_BITS,
            dominant_tags_per_pole: 5,
            representative_works_per_pole: 3,
            minimum_axis_observations: 10,
        }
    }
}

/// The most poles a clustered profile has.
pub const MAX_POLES: usize = 4;

/// The fewest poles a clustered profile has.
pub const MIN_CLUSTERED_POLES: usize = 2;

/// How many poles a profile has, and why: below the minimum history, one
/// fallback pole; with fewer favorites than two poles need, one fallback
/// pole; otherwise one pole per full block of the minimum history, plus
/// one, between two and four, and never more than the favorites.
pub open spec fn pole_plan_of(history_size: nat, favorite_count: nat, minimum_history: nat) -> (ProfileMode, nat) {
    if history_size < minimum_history {
        (ProfileMode::SparseHistory, 1)
    } else if favorite_count < MIN_CLUSTERED_POLES {
        (ProfileMode::SparseFavorites, 1)
    } else {
        let blocks: nat = if minimum_history == 0 { 0 } else { history_size / minimum_history };
        let wanted: nat = if blocks + 1 < MIN_CLUSTERED_POLES {
            MIN_CLUSTERED_POLES as nat
        } else if blocks + 1 > MAX_POLES {
            MAX_POLES as nat
        } else {
            blocks + 1
        };
        (ProfileMode::Clustered, if wanted < favorite_count { wanted } else { favorite_count })
    }
}

/// Computes [`pole_plan_of`].
pub fn pole_plan(history_size: usize, favorite_count: usize, minimum_history: usize) -> (plan: (ProfileMode, usize))
    ensures
        plan.0 == pole_plan_of(history_size as nat, favorite_count as nat, minimum_history as nat).0,
        plan.1 == pole_plan_of(history_size as nat, favorite_count as nat, minimum_history as nat).1,
{
    if history_size < minimum_history {
        return (ProfileMode::SparseHistory, 1);
    }
    if favorite_count < MIN_CLUSTERED_POLES {
        return (ProfileMode::SparseFavorites, 1);
    }
    let blocks = if minimum_history == 0 { 0 } else { history_size / minimum_history };
    let wanted = if blocks < MIN_CLUSTERED_POLES - 1 {
        MIN_CLUSTERED_POLES
    } else if blocks > MAX_POLES - 1 {
        MAX_POLES
    } else {
        blocks + 1
    };
    (ProfileMode::Clustered, if wanted < favorite_count { wanted } else { favorite_count })
}

/// How many poles a profile gets. Below the minimum history there is one
/// fallback pole, and so with fewer than two favorites. Otherwise the profile
/// is clustered into between two and four poles, never more than the
/// favorites: as many as there are full blocks of the minimum history, plus
/// one. So a pole count `c` below both the favorites and four means that
/// the history holds fewer than `c` blocks, and a count above two means it
/// holds at least `c - 1` of them.
pub proof fn lemma_pole_count(history_size: nat, favorite_count: nat, minimum_history: nat)
    requires
        minimum_history > 0,
    ensures
        history_size < minimum_history ==> pole_plan_of(history_size, favorite_count, minimum_history) == (ProfileMode::SparseHistory, 1nat),
        history_size >= minimum_history && favorite_count < 2
            ==> pole_plan_of(history_size, favorite_count, minimum_history) == (ProfileMode::SparseFavorites, 1nat),
        history_size >= minimum_history && favorite_count >= 2 ==> {
            let c = pole_plan_of(history_size, favorite_count, minimum_history).1;
            &&& pole_plan_of(history_size, favorite_count, minimum_history).0 == ProfileMode::Clustered
            &&& 2 <= c <= 4
            &&& c <= favorite_count
            &&& (c < favorite_count && c < 4 ==> history_size < c * minimum_history)
            &&& (c > 2 ==> (c - 1) * minimum_history <= history_size)
        },
{
    if history_size >= minimum_history && favorite_count >= 2 {
        let k = history_size / minimum_history;
        assert(k * minimum_history <= history_size < (k + 1) * minimum_history) by (nonlinear_arith)
            requires
                minimum_history > 0,
                k == history_size / minimum_history;
        let c = pole_plan_of(history_size, favorite_count, minimum_history).1;
        if k == 0 {
            assert(c == 2);
            assert(history_size < 2 * minimum_history) by (nonlinear_arith)
                requires
                    history_size < (k + 1) * minimum_history,
                    k == 0,
                    minimum_history > 0;
        } else if k == 1 {
            assert(c == 2);
            assert(history_size < 2 * minimum_history) by (nonlinear_arith)
                requires
                    history_size < (k + 1) * minimum_history,
                    k == 1;
        } else if k == 2 {
            assert(history_size < 3 * minimum_history && 2 * minimum_history <= history_size) by (nonlinear_arith)
                requires
                    k * minimum_history <= history_size < (k + 1) * minimum_history,
                    k == 2;
            assert(history_size < 2 * minimum_history ==> false);
        } else {
            assert(3 * minimum_history <= history_size) by (nonlinear_arith)
                requires
                    k * minimum_history <= history_size,
                    k >= 3,
                    minimum_history > 0;
            assert(2 * minimum_history <= history_size);
        }
    }
}

/// The key under which tags are matched: the lowercase name.
pub fn normalized_tag_key(value: &str) -> (key: String)
    ensures
        key@ == lowercase_of(value@),
{
    crate::text::lowercase(value)
}

/// The five personal axes, in declaration order.
pub fn all_axes() -> (axes: [PersonalAxis; 5])
    ensures
        axes@ == seq![
            PersonalAxis::Story,
            PersonalAxis::Characters,
            PersonalAxis::WorldBuilding,
            PersonalAxis::VisualDirection,
            PersonalAxis::SoundAndMusic,
        ],
{
    let axes = [
        PersonalAxis::Story,
        PersonalAxis::Characters,
        PersonalAxis::WorldBuilding,
        PersonalAxis::VisualDirection,
        PersonalAxis::SoundAndMusic,
    ];
    assert(axes@ =~= seq![
        PersonalAxis::Story,
        PersonalAxis::Characters,
        PersonalAxis::WorldBuilding,
        PersonalAxis::VisualDirection,
        PersonalAxis::SoundAndMusic,
    ]);
    axes
}

/// The weight of one axis.
#[derive(Debug, Clone, Copy, PartialEq)]
pub struct AxisWeight {
    axis: PersonalAxis,
    weight: Ratio,
}

impl AxisWeight {
    /// The axis.
    pub closed spec fn spec_axis(self) -> PersonalAxis {
        self.axis
    }

    /// Its weight.
    pub closed spec fn spec_weight(self) -> Ratio {
        self.weight
    }

    /// Weighs an axis.
    pub fn new(axis: PersonalAxis, weight: Ratio) -> (w: AxisWeight)
        ensures
            w.spec_axis() == axis,
            w.spec_weight() == weight,
    {
        AxisWeight { axis, weight }
    }

    /// The axis.
    pub fn axis(&self) -> (axis: PersonalAxis) ensures axis == self.spec_axis(), { self.axis }

    /// Its weight.
    pub fn weight(&self) -> (weight: Ratio) ensures weight == self.spec_weight(), { self.weight }
}

/// The distribution over the five axes, with its source and its evidence.
#[derive(Debug, Clone, PartialEq)]
pub struct AxisProfile {
    source: AxisWeightSource,
    observed_works: usize,
    weights: Vec<AxisWeight>,
}

/// The pattern of `0.2`, the prior weight of each axis.
pub const AXIS_PRIOR_BITS: u64 = 0x3FC9_9999_9999_999A;

impl AxisProfile {
    /// Where the weights come from.
    pub closed spec fn spec_source(self) -> AxisWeightSource {
        self.source
    }

    /// The number of annotated works observed.
    pub closed spec fn spec_observed_works(self) -> nat {
        self.observed_works as nat
    }

    /// The weights.
    pub closed spec fn spec_weights(self) -> Seq<AxisWeight> {
        self.weights@
    }

    /// A distribution with these weights.
    pub fn new(source: AxisWeightSource, observed_works: usize, weights: Vec<AxisWeight>) -> (profile: AxisProfile)
        ensures
            profile.spec_source() == source,
            profile.spec_observed_works() == observed_works,
            profile.spec_weights() == weights@,
    {
        AxisProfile { source, observed_works, weights }
    }

    /// The prior: each of the five axes weighs `0.2`.
    pub fn prior(observed_works: usize) -> (profile: AxisProfile)
        ensures
            profile.spec_source() == AxisWeightSource::Prior,
            profile.spec_observed_works() == observed_works,
            profile.spec_weights().len() == 5,
            forall|i: int| 0 <= i < 5 ==> (#[trigger] profile.spec_weights()[i]).spec_weight().spec_bits() == AXIS_PRIOR_BITS
                && profile.spec_weights()[i].spec_axis() == all_axes_spec()[i],
    {
        let prior = match Ratio::new(AXIS_PRIOR_BITS) {
            Ok(r) => r,
            Err(_) => vstd::pervasive::unreached(),
        };
        let axes = all_axes();
        let mut weights: Vec<AxisWeight> = Vec::new();
        let mut i: usize = 0;
        while i < 5
            invariant
                i <= 5,
                axes@ == all_axes_spec(),
                prior.spec_bits() == AXIS_PRIOR_BITS,
                weights@.len() == i,
                forall|x: int| 0 <= x < i ==> (#[trigger] weights@[x]).spec_weight() == prior && weights@[x].spec_axis() == all_axes_spec()[x],
            decreases 5 - i,
        {
            weights.push(AxisWeight { axis: axes[i], weight: prior });
            i = i + 1;
        }
        AxisProfile { source: AxisWeightSource::Prior, observed_works, weights }
    }

    /// Where the weights come from.
    pub fn source(&self) -> (source: AxisWeightSource) ensures source == self.spec_source(), { self.source }

    /// The number of annotated works observed.
    pub fn observed_works(&self) -> (count: usize) ensures count == self.spec_observed_works(), { self.observed_works }

    /// The weights.
    pub fn weights(&self) -> (weights: &[AxisWeight]) ensures weights@ == self.spec_weights(), { self.weights.as_slice() }

    /// The weight of an axis: the first weight given for it, or zero.
    pub fn weight_for(&self, axis: PersonalAxis) -> (weight: Ratio)
        ensures
            (exists|i: int| 0 <= i < self.spec_weights().len() && (#[trigger] self.spec_weights()[i]).spec_axis() == axis) ==>
                exists|i: int| 0 <= i < self.spec_weights().len() && (#[trigger] self.spec_weights()[i]).spec_axis() == axis
                    && weight == self.spec_weights()[i].spec_weight()
                    && forall|j: int| 0 <= j < i ==> (#[trigger] self.spec_weights()[j]).spec_axis() != axis,
            !(exists|i: int| 0 <= i < self.spec_weights().len() && (#[trigger] self.spec_weights()[i]).spec_axis() == axis) ==>
                weight.spec_bits() == ZERO_BITS,
    {
        let mut i: usize = 0;
        while i < self.weights.len()
            invariant
                i <= self.weights@.len(),
                forall|j: int| 0 <= j < i ==> (#[trigger] self.weights@[j]).spec_axis() != axis,
            decreases self.weights.len() - i,
        {
            if self.weights[i].axis == axis {
                return self.weights[i].weight;
            }
            i = i + 1;
        }
        match Ratio::new(ZERO_BITS) {
            Ok(r) => r,
            Err(_) => vstd::pervasive::unreached(),
        }
    }
}

/// The five personal axes, in declaration order.
pub open spec fn all_axes_spec() -> Seq<PersonalAxis> {
    seq![
        PersonalAxis::Story,
        PersonalAxis::Characters,
        PersonalAxis::WorldBuilding,
        PersonalAxis::VisualDirection,
        PersonalAxis::SoundAndMusic,
    ]
}

/// The message of a profile failure.
pub open spec fn profile_message(e: ProfileError) -> Seq<char> {
    match e {
        ProfileError::Affinity(inner) => "cannot build taste profile: "@ + affinity_message(inner),
        ProfileError::HistoryTooLarge => "history exceeds supported size"@,
        ProfileError::MissingCatalogWork { work_id } => "catalog work "@ + decimal_of(work_id.spec_value() as nat) + " is missing"@,
        ProfileError::InvalidComputedValue { field } => "computed taste profile "@ + field@ + " is not finite"@,
        ProfileError::InvalidConfiguration { field, reason } => "invalid taste profile configuration "@ + field@ + ": "@ + reason@,
    }
}

impl ProfileError {
    /// The message of the failure.
    pub fn message(&self) -> (text: String)
        ensures
            text@ == profile_message(*self),
    {
        match self {
            ProfileError::Affinity(inner) => {
                let mut text = String::from_str("cannot build taste profile: ");
                text.append(inner.message().as_str());
                text
            },
            ProfileError::HistoryTooLarge => String::from_str("history exceeds supported size"),
            ProfileError::MissingCatalogWork { work_id } => {
                let mut text = String::from_str("catalog work ");
                text.append(crate::text::decimal(work_id.get()).as_str());
                text.append(" is missing");
                text
            },
            ProfileError::InvalidComputedValue { field } => {
                let mut text = String::from_str("computed taste profile ");
                text.append(field);
                text.append(" is not finite");
                text
            },
            ProfileError::InvalidConfiguration { field, reason } => {
                let mut text = String::from_str("invalid taste profile configuration ");
                text.append(field);
                text.append(": ");
                text.append(reason);
                text
            },
        }
    }
}

} // verus!
