//! The settings of the personal affinity and the exact steps around it:
//! aggregating viewing events per work, classifying a centred rating, and
//! choosing the dropped works that carry no rating.
//!
//! The affinity values themselves are binary64 computations (a mean, a
//! deviation, logarithms and powers) made by the caller from these pieces.

use vstd::prelude::*;
use crate::domain::{DropProgress, Rating, RatingRecord, WatchEvent, WorkId, event_work};
use crate::ieee::{is_finite, less_than, within, ZERO_BITS, ONE_BITS, SIGN_BIT};
use crate::import::{OfflineDataset, works_by_id};
use crate::sort::{key_less, items_of};
use crate::text::decimal_of;

verus! {

broadcast use vstd::seq_lib::group_to_multiset_ensures;

/// How the rating signal is treated before the viewing signals.
#[derive(Debug, Clone, Copy, PartialEq, Eq, Structural)]
pub enum RatingSignalKind {
    Positive,
    Neutral,
    Negative,
    GoodButNotForMe,
    /// A dropped work without a rating: only the viewing signals speak.
    Unrated,
}

/// An explicit failure of the affinity computation.
#[derive(Debug, Clone, PartialEq, Eq)]
pub enum AffinityError {
    NoRatings,
    HistoryTooLarge,
    InvalidComputedMean,
    InvalidComputedAffinity { work_id: WorkId },
    InvalidConfiguration { field: &'static str, reason: &'static str },
}

/// The outcome of checking that a weight is finite and greater than zero.
pub open spec fn positive_setting(field: &'static str, bits: u64) -> Result<(), AffinityError> {
    if !is_finite(bits) || !less_than(ZERO_BITS, bits) {
        Err(AffinityError::InvalidConfiguration { field, reason: "must be finite and greater than zero" })
    } else {
        Ok(())
    }
}

/// The outcome of checking that a weight is finite and not negative.
pub open spec fn non_negative_setting(field: &'static str, bits: u64) -> Result<(), AffinityError> {
    if !is_finite(bits) || less_than(bits, ZERO_BITS) {
        Err(AffinityError::InvalidConfiguration { field, reason: "must be finite and non-negative" })
    } else {
        Ok(())
    }
}

/// The outcome of checking that a weight is a finite number in `[0, 1]`.
pub open spec fn unit_setting(field: &'static str, bits: u64) -> Result<(), AffinityError> {
    if !is_finite(bits) || !within(bits, ONE_BITS) {
        Err(AffinityError::InvalidConfiguration { field, reason: "must be finite and between zero and one" })
    } else {
        Ok(())
    }
}

fn validate_positive(field: &'static str, bits: u64) -> (result: Result<(), AffinityError>)
    ensures
        result == positive_setting(field, bits),
{
    if !crate::ieee::finite(bits) || !crate::ieee::lower(ZERO_BITS, bits) {
        return Err(AffinityError::InvalidConfiguration { field, reason: "must be finite and greater than zero" });
    }
    Ok(())
}

fn validate_non_negative(field: &'static str, bits: u64) -> (result: Result<(), AffinityError>)
    ensures
        result == non_negative_setting(field, bits),
{
    if !crate::ieee::finite(bits) || crate::ieee::lower(bits, ZERO_BITS) {
        return Err(AffinityError::InvalidConfiguration { field, reason: "must be finite and non-negative" });
    }
    Ok(())
}

fn validate_unit_interval(field: &'static str, bits: u64) -> (result: Result<(), AffinityError>)
    ensures
        result == unit_setting(field, bits),
{
    if !crate::ieee::finite(bits) || !crate::ieee::in_range(bits, ONE_BITS) {
        return Err(AffinityError::InvalidConfiguration { field, reason: "must be finite and between zero and one" });
    }
    Ok(())
}

/// The settings of the affinity, numbers held by their binary64 pattern.
pub ghost struct AffinityView {
    pub rating_scale: u64,
    pub rating_scale_shrinkage: u64,
    pub rating_scale_floor: u64,
    pub rewatch_weight: u64,
    pub rewatch_duration_reference_minutes: u32,
    pub rewatch_duration_factor_min: u64,
    pub rewatch_duration_factor_max: u64,
    pub drop_penalty_weight: u64,
    pub drop_curve_exponent: u64,
    pub good_rating_threshold: Rating,
    pub good_but_not_for_me_multiplier: u64,
    pub neutral_band: u64,
}

/// The outcome of validating the settings, checks taken in order.
pub open spec fn affinity_check(v: AffinityView) -> Result<(), AffinityError> {
    if positive_setting("rating_scale", v.rating_scale) is Err {
        positive_setting("rating_scale", v.rating_scale)
    } else if non_negative_setting("rating_scale_shrinkage", v.rating_scale_shrinkage) is Err {
        non_negative_setting("rating_scale_shrinkage", v.rating_scale_shrinkage)
    } else if positive_setting("rating_scale_floor", v.rating_scale_floor) is Err {
        positive_setting("rating_scale_floor", v.rating_scale_floor)
    } else if non_negative_setting("rewatch_weight", v.rewatch_weight) is Err {
        non_negative_setting("rewatch_weight", v.rewatch_weight)
    } else if v.rewatch_duration_reference_minutes == 0 {
        Err(AffinityError::InvalidConfiguration { field: "rewatch_duration_reference_minutes", reason: "must be greater than zero" })
    } else if positive_setting("rewatch_duration_factor_min", v.rewatch_duration_factor_min) is Err {
        positive_setting("rewatch_duration_factor_min", v.rewatch_duration_factor_min)
    } else if positive_setting("rewatch_duration_factor_max", v.rewatch_duration_factor_max) is Err {
        positive_setting("rewatch_duration_factor_max", v.rewatch_duration_factor_max)
    } else if less_than(v.rewatch_duration_factor_max, v.rewatch_duration_factor_min) {
        Err(AffinityError::InvalidConfiguration { field: "rewatch_duration_factor_min", reason: "must not exceed rewatch_duration_factor_max" })
    } else if non_negative_setting("drop_penalty_weight", v.drop_penalty_weight) is Err {
        non_negative_setting("drop_penalty_weight", v.drop_penalty_weight)
    } else if positive_setting("drop_curve_exponent", v.drop_curve_exponent) is Err {
        positive_setting("drop_curve_exponent", v.drop_curve_exponent)
    } else if unit_setting("good_but_not_for_me_multiplier", v.good_but_not_for_me_multiplier) is Err {
        unit_setting("good_but_not_for_me_multiplier", v.good_but_not_for_me_multiplier)
    } else if non_negative_setting("neutral_band", v.neutral_band) is Err {
        non_negative_setting("neutral_band", v.neutral_band)
    } else {
        Ok(())
    }
}

/// The V1 settings, as patterns: scale `2.0`, shrinkage `10.0`, floor
/// `0.5`, rewatch weight `0.4`, reference `300` minutes, duration factor in
/// `[0.5, 2.0]`, drop weight `1.5`, drop exponent `1.5`, good rating `7.0`,
/// multiplier `0.5`, neutral band `0.15`.
pub open spec fn default_affinity_view(threshold: Rating) -> AffinityView {
    AffinityView {
        rating_scale: 0x4000_0000_0000_0000,
        rating_scale_shrinkage: 0x4024_0000_0000_0000,
        rating_scale_floor: 0x3FE0_0000_0000_0000,
        rewatch_weight: 0x3FD9_9999_9999_999A,
        rewatch_duration_reference_minutes: 300,
        rewatch_duration_factor_min: 0x3FE0_0000_0000_0000,
        rewatch_duration_factor_max: 0x4000_0000_0000_0000,
        drop_penalty_weight: 0x3FF8_0000_0000_0000,
        drop_curve_exponent: 0x3FF8_0000_0000_0000,
        good_rating_threshold: threshold,
        good_but_not_for_me_multiplier: 0x3FE0_0000_0000_0000,
        neutral_band: 0x3FC3_3333_3333_3333,
    }
}

/// Validated settings of the affinity computation.
#[derive(Debug, Clone, Copy, PartialEq)]
pub struct AffinityConfig {
    rating_scale: u64,
    rating_scale_shrinkage: u64,
    rating_scale_floor: u64,
    rewatch_weight: u64,
    rewatch_duration_reference_minutes: u32,
    rewatch_duration_factor_min: u64,
    rewatch_duration_factor_max: u64,
    drop_penalty_weight: u64,
    drop_curve_exponent: u64,
    good_rating_threshold: Rating,
    good_but_not_for_me_multiplier: u64,
    neutral_band: u64,
}

impl View for AffinityConfig {
    type V = AffinityView;

    closed spec fn view(&self) -> AffinityView {
        AffinityView {
            rating_scale: self.rating_scale,
            rating_scale_shrinkage: self.rating_scale_shrinkage,
            rating_scale_floor: self.rating_scale_floor,
            rewatch_weight: self.rewatch_weight,
            rewatch_duration_reference_minutes: self.rewatch_duration_reference_minutes,
            rewatch_duration_factor_min: self.rewatch_duration_factor_min,
            rewatch_duration_factor_max: self.rewatch_duration_factor_max,
            drop_penalty_weight: self.drop_penalty_weight,
            drop_curve_exponent: self.drop_curve_exponent,
            good_rating_threshold: self.good_rating_threshold,
            good_but_not_for_me_multiplier: self.good_but_not_for_me_multiplier,
            neutral_band: self.neutral_band,
        }
    }
}

impl AffinityConfig {
    /// Validates the settings: bounds first, then the relation between the
    /// two duration factors; the first failing check gives the error.
    pub fn new(
        rating_scale: u64,
        rating_scale_shrinkage: u64,
        rating_scale_floor: u64,
        rewatch_weight: u64,
        rewatch_duration_reference_minutes: u32,
        rewatch_duration_factor_min: u64,
        rewatch_duration_factor_max: u64,
        drop_penalty_weight: u64,
        drop_curve_exponent: u64,
        good_rating_threshold: Rating,
        good_but_not_for_me_multiplier: u64,
        neutral_band: u64,
    ) -> (result: Result<AffinityConfig, AffinityError>)
        ensures
            ({
                let v = AffinityView {
                    rating_scale,
                    rating_scale_shrinkage,
                    rating_scale_floor,
                    rewatch_weight,
                    rewatch_duration_reference_minutes,
                    rewatch_duration_factor_min,
                    rewatch_duration_factor_max,
                    drop_penalty_weight,
                    drop_curve_exponent,
                    good_rating_threshold,
                    good_but_not_for_me_multiplier,
                    neutral_band,
                };
                match affinity_check(v) {
                    Err(e) => result == Err::<AffinityConfig, AffinityError>(e),
                    Ok(_) => result matches Ok(c) && c@ == v,
                }
            }),
    {
        validate_positive("rating_scale", rating_scale)?;
        validate_non_negative("rating_scale_shrinkage", rating_scale_shrinkage)?;
        validate_positive("rating_scale_floor", rating_scale_floor)?;
        validate_non_negative("rewatch_weight", rewatch_weight)?;
        if rewatch_duration_reference_minutes == 0 {
            return Err(AffinityError::InvalidConfiguration {
                field: "rewatch_duration_reference_minutes",
                reason: "must be greater than zero",
            });
        }
        validate_positive("rewatch_duration_factor_min", rewatch_duration_factor_min)?;
        validate_positive("rewatch_duration_factor_max", rewatch_duration_factor_max)?;
        if crate::ieee::lower(rewatch_duration_factor_max, rewatch_duration_factor_min) {
            return Err(AffinityError::InvalidConfiguration {
                field: "rewatch_duration_factor_min",
                reason: "must not exceed rewatch_duration_factor_max",
            });
        }
        validate_non_negative("drop_penalty_weight", drop_penalty_weight)?;
        validate_positive("drop_curve_exponent", drop_curve_exponent)?;
        validate_unit_interval("good_but_not_for_me_multiplier", good_but_not_for_me_multiplier)?;
        validate_non_negative("neutral_band", neutral_band)?;
        Ok(AffinityConfig {
            rating_scale,
            rating_scale_shrinkage,
            rating_scale_floor,
            rewatch_weight,
            rewatch_duration_reference_minutes,
            rewatch_duration_factor_min,
            rewatch_duration_factor_max,
            drop_penalty_weight,
            drop_curve_exponent,
            good_rating_threshold,
            good_but_not_for_me_multiplier,
            neutral_band,
        })
    }

    /// The prior scale of a rating deviation.
    pub fn rating_scale(&self) -> (bits: u64) ensures bits == self@.rating_scale, { self.rating_scale }

    /// The weight of the prior scale against the observed deviation.
    pub fn rating_scale_shrinkage(&self) -> (bits: u64) ensures bits == self@.rating_scale_shrinkage, { self.rating_scale_shrinkage }

    /// The smallest scale applied.
    pub fn rating_scale_floor(&self) -> (bits: u64) ensures bits == self@.rating_scale_floor, { self.rating_scale_floor }

    /// The weight of the rewatch bonus.
    pub fn rewatch_weight(&self) -> (bits: u64) ensures bits == self@.rewatch_weight, { self.rewatch_weight }

    /// The runtime, in minutes, at which a rewatch counts once.
    pub fn rewatch_duration_reference_minutes(&self) -> (minutes: u32)
        ensures
            minutes == self@.rewatch_duration_reference_minutes,
    {
        self.rewatch_duration_reference_minutes
    }

    /// The smallest duration factor of a rewatch.
    pub fn rewatch_duration_factor_min(&self) -> (bits: u64) ensures bits == self@.rewatch_duration_factor_min, { self.rewatch_duration_factor_min }

    /// The largest duration factor of a rewatch.
    pub fn rewatch_duration_factor_max(&self) -> (bits: u64) ensures bits == self@.rewatch_duration_factor_max, { self.rewatch_duration_factor_max }

    /// The weight of the drop penalty.
    pub fn drop_penalty_weight(&self) -> (bits: u64) ensures bits == self@.drop_penalty_weight, { self.drop_penalty_weight }

    /// The exponent of the drop penalty curve.
    pub fn drop_curve_exponent(&self) -> (bits: u64) ensures bits == self@.drop_curve_exponent, { self.drop_curve_exponent }

    /// The rating from which a work is good though not to the user's taste.
    pub fn good_rating_threshold(&self) -> (threshold: Rating) ensures threshold == self@.good_rating_threshold, { self.good_rating_threshold }

    /// The multiplier of a good work that is not to the user's taste.
    pub fn good_but_not_for_me_multiplier(&self) -> (bits: u64) ensures bits == self@.good_but_not_for_me_multiplier, { self.good_but_not_for_me_multiplier }

    /// The half-width of the neutral band of centred ratings.
    pub fn neutral_band(&self) -> (bits: u64) ensures bits == self@.neutral_band, { self.neutral_band }
}

/// The pattern of `7.0`, the default good rating.
pub const GOOD_RATING_BITS: u64 = 0x401C_0000_0000_0000;

impl Default for AffinityConfig {
    /// The V1 settings.
    fn default() -> (config: Self)
        ensures
            config@ == default_affinity_view(config@.good_rating_threshold),
            config@.good_rating_threshold.spec_bits() == GOOD_RATING_BITS,
    {
        let threshold = match Rating::new(GOOD_RATING_BITS) {
            Ok(r) => r,
            Err(_) => vstd::pervasive::unreached(),
        };
        AffinityConfig {
            rating_scale: 0x4000_0000_0000_0000,
            rating_scale_shrinkage: 0x4024_0000_0000_0000,
            rating_scale_floor: 0x3FE0_0000_0000_0000,
            rewatch_weight: 0x3FD9_9999_9999_999A,
            rewatch_duration_reference_minutes: 300,
            rewatch_duration_factor_min: 0x3FE0_0000_0000_0000,
            rewatch_duration_factor_max: 0x4000_0000_0000_0000,
            drop_penalty_weight: 0x3FF8_0000_0000_0000,
            drop_curve_exponent: 0x3FF8_0000_0000_0000,
            good_rating_threshold: threshold,
            good_but_not_for_me_multiplier: 0x3FE0_0000_0000_0000,
            neutral_band: 0x3FC3_3333_3333_3333,
        }
    }
}

/// The pattern of `-x`.
pub open spec fn negated(bits: u64) -> u64 {
    if bits >= SIGN_BIT { (bits - SIGN_BIT) as u64 } else { (bits + SIGN_BIT) as u64 }
}

/// The treatment of a rating, given its centred and scaled value.
pub open spec fn signal_kind(rating: Rating, centered: u64, config: AffinityView) -> RatingSignalKind {
    if less_than(centered, negated(config.neutral_band)) && !less_than(rating.spec_bits(), config.good_rating_threshold.spec_bits()) {
        RatingSignalKind::GoodButNotForMe
    } else if less_than(config.neutral_band, centered) {
        RatingSignalKind::Positive
    } else if less_than(centered, negated(config.neutral_band)) {
        RatingSignalKind::Negative
    } else {
        RatingSignalKind::Neutral
    }
}

/// Classifies a rating from its centred value: below the neutral band yet
/// rated at least the good threshold, above the band, below it, or inside.
pub fn rating_signal_kind(rating: Rating, centered: u64, config: &AffinityConfig) -> (kind: RatingSignalKind)
    requires
        is_finite(centered),
        is_finite(config@.neutral_band),
    ensures
        kind == signal_kind(rating, centered, config@),
{
    let band = config.neutral_band;
    let below = if band >= SIGN_BIT { band - SIGN_BIT } else { band + SIGN_BIT };
    let under = crate::ieee::lower(centered, below);
    if under && !crate::ieee::lower(rating.get(), config.good_rating_threshold.get()) {
        RatingSignalKind::GoodButNotForMe
    } else if crate::ieee::lower(band, centered) {
        RatingSignalKind::Positive
    } else if under {
        RatingSignalKind::Negative
    } else {
        RatingSignalKind::Neutral
    }
}

/// The viewing signals gathered for one work.
#[derive(Debug, Clone, Copy, PartialEq, Eq, Structural)]
pub struct EventSignals {
    pub rewatch_count: u32,
    pub drop_progress: Option<DropProgress>,
}

/// The number of rewatches of a work.
pub open spec fn rewatches_of(events: Seq<WatchEvent>, id: WorkId) -> nat
    decreases events.len(),
{
    if events.len() == 0 {
        0
    } else {
        rewatches_of(events.drop_last(), id) + match events.last() {
            WatchEvent::Rewatched { work_id } => if work_id == id { 1nat } else { 0nat },
            _ => 0nat,
        }
    }
}

/// The progress of the last drop of a work.
pub open spec fn last_drop(events: Seq<WatchEvent>, id: WorkId) -> Option<DropProgress>
    decreases events.len(),
{
    if events.len() == 0 {
        None
    } else {
        match events.last() {
            WatchEvent::Dropped { work_id, progress } => if work_id == id { Some(progress) } else { last_drop(events.drop_last(), id) },
            _ => last_drop(events.drop_last(), id),
        }
    }
}

/// A work has an entry among gathered signals.
pub open spec fn listed(signals: Seq<(WorkId, EventSignals)>, id: WorkId) -> bool {
    exists|i: int| 0 <= i < signals.len() && signals[i].0 == id
}

/// Some event concerns the work.
pub open spec fn has_events(events: Seq<WatchEvent>, id: WorkId) -> bool {
    exists|i: int| 0 <= i < events.len() && event_work(#[trigger] events[i]) == id
}

proof fn lemma_rewatches_prefix(events: Seq<WatchEvent>, k: int, id: WorkId)
    requires
        0 <= k <= events.len(),
    ensures
        rewatches_of(events.take(k), id) <= rewatches_of(events, id),
    decreases events.len() - k,
{
    if k < events.len() {
        lemma_rewatches_prefix(events, k + 1, id);
        assert(events.take(k + 1).drop_last() =~= events.take(k));
    } else {
        assert(events.take(k) =~= events);
    }
}

fn find_signal(signals: &Vec<(WorkId, EventSignals)>, id: WorkId) -> (i: usize)
    ensures
        i <= signals@.len(),
        i < signals@.len() ==> signals@[i as int].0 == id,
        i == signals@.len() ==> forall|j: int| 0 <= j < signals@.len() ==> (#[trigger] signals@[j]).0 != id,
{
    let mut i: usize = 0;
    while i < signals.len()
        invariant
            i <= signals@.len(),
            forall|j: int| 0 <= j < i ==> (#[trigger] signals@[j]).0 != id,
        decreases signals.len() - i,
    {
        if signals[i].0 == id {
            return i;
        }
        i = i + 1;
    }
    i
}

/// Gathers the viewing signals of every work that has an event: the number
/// of its rewatches and the progress of its last drop. Refuses a history in
/// which a work is rewatched more than `u32::MAX` times.
pub fn aggregate_events(events: &[WatchEvent]) -> (result: Result<Vec<(WorkId, EventSignals)>, AffinityError>)
    ensures
        result is Err <==> exists|id: WorkId| #[trigger] rewatches_of(events@, id) > u32::MAX,
        result is Err ==> result == Err::<Vec<(WorkId, EventSignals)>, AffinityError>(AffinityError::HistoryTooLarge),
        result matches Ok(signals) ==> {
            &&& forall|a: int, b: int| 0 <= a < b < signals@.len() ==> (#[trigger] signals@[a]).0 != (#[trigger] signals@[b]).0
            &&& forall|i: int| 0 <= i < signals@.len() ==> (#[trigger] signals@[i]).1.rewatch_count == rewatches_of(events@, signals@[i].0)
                && signals@[i].1.drop_progress == last_drop(events@, signals@[i].0)
            &&& forall|id: WorkId| #[trigger] has_events(events@, id) <==> exists|i: int| 0 <= i < signals@.len() && signals@[i].0 == id
        },
{
    let mut signals: Vec<(WorkId, EventSignals)> = Vec::new();
    let mut e: usize = 0;
    while e < events.len()
        invariant
            e <= events@.len(),
            forall|a: int, b: int| 0 <= a < b < signals@.len() ==> (#[trigger] signals@[a]).0 != (#[trigger] signals@[b]).0,
            forall|i: int| 0 <= i < signals@.len() ==> (#[trigger] signals@[i]).1.rewatch_count == rewatches_of(events@.take(e as int), signals@[i].0)
                && signals@[i].1.drop_progress == last_drop(events@.take(e as int), signals@[i].0),
            forall|id: WorkId| #[trigger] has_events(events@.take(e as int), id) <==> exists|i: int| 0 <= i < signals@.len() && signals@[i].0 == id,
            forall|id: WorkId| !listed(signals@, id) ==> #[trigger] rewatches_of(events@.take(e as int), id) == 0
                && last_drop(events@.take(e as int), id) is None,
        decreases events.len() - e,
    {
        let event = events[e];
        let id = event.work_id();
        let ghost before = events@.take(e as int);
        let ghost after = events@.take(e + 1);
        assert(after.drop_last() =~= before);
        assert(after.last() == event);
        let i = find_signal(&signals, id);
        let ghost old_signals = signals@;
        let current = if i < signals.len() {
            signals[i].1
        } else {
            EventSignals { rewatch_count: 0, drop_progress: None }
        };
        proof {
            if i < signals@.len() {
                assert(signals@[i as int].0 == id);
            } else {
                assert(!(exists|x: int| 0 <= x < signals@.len() && signals@[x].0 == id));
            }
            assert(current.rewatch_count == rewatches_of(before, id));
            assert(current.drop_progress == last_drop(before, id));
        }
        let updated = match event {
            WatchEvent::Rewatched { .. } => {
                match current.rewatch_count.checked_add(1) {
                    Some(n) => EventSignals { rewatch_count: n, ..current },
                    None => {
                        proof {
                            assert(rewatches_of(after, id) > u32::MAX);
                            lemma_rewatches_prefix(events@, e + 1, id);
                        }
                        return Err(AffinityError::HistoryTooLarge);
                    },
                }
            },
            WatchEvent::Dropped { progress, .. } => EventSignals { drop_progress: Some(progress), ..current },
            WatchEvent::Completed { .. } => current,
        };
        if i < signals.len() {
            signals.set(i, (id, updated));
        } else {
            signals.push((id, updated));
        }
        proof {
            assert forall|x: int| 0 <= x < signals@.len() implies (#[trigger] signals@[x]).1.rewatch_count == rewatches_of(after, signals@[x].0)
                && signals@[x].1.drop_progress == last_drop(after, signals@[x].0) by {
                if signals@[x].0 != id {
                    assert(signals@[x] == old_signals[x]);
                }
            }
            assert forall|w: WorkId| #[trigger] has_events(after, w) <==> exists|x: int| 0 <= x < signals@.len() && signals@[x].0 == w by {
                if has_events(after, w) && w != id {
                    let k = choose|k: int| 0 <= k < after.len() && event_work(#[trigger] after[k]) == w;
                    assert(before[k] == after[k]);
                    assert(has_events(before, w));
                    let x = choose|x: int| 0 <= x < old_signals.len() && old_signals[x].0 == w;
                    assert(signals@[x].0 == w);
                }
                if w == id {
                    assert(event_work(after[e as int]) == id);
                    assert(signals@[i as int].0 == id);
                }
                if (exists|x: int| 0 <= x < signals@.len() && signals@[x].0 == w) && w != id {
                    let x = choose|x: int| 0 <= x < signals@.len() && signals@[x].0 == w;
                    assert(old_signals[x].0 == w);
                    assert(has_events(before, w));
                    let k = choose|k: int| 0 <= k < before.len() && event_work(#[trigger] before[k]) == w;
                    assert(after[k] == before[k]);
                }
            }
            assert forall|w: WorkId| !listed(signals@, w) implies #[trigger] rewatches_of(after, w) == 0
                && last_drop(after, w) is None by {
                if w == id {
                    assert(signals@[i as int].0 == id);
                }
                if !listed(old_signals, w) {
                    assert(rewatches_of(events@.take(e as int), w) == 0);
                    assert(w != id);
                } else {
                    let x = choose|x: int| 0 <= x < old_signals.len() && old_signals[x].0 == w;
                    assert(signals@[x].0 == w);
                }
            }
        }
        e = e + 1;
    }
    proof {
        assert(events@.take(events@.len() as int) =~= events@);
        assert forall|id: WorkId| !(#[trigger] rewatches_of(events@, id) > u32::MAX) by {
            if exists|i: int| 0 <= i < signals@.len() && signals@[i].0 == id {
                let i = choose|i: int| 0 <= i < signals@.len() && signals@[i].0 == id;
                assert(signals@[i].1.rewatch_count == rewatches_of(events@, id));
            }
        }
    }
    Ok(signals)
}

/// The gathered signals of the dropped works that carry no rating and stand
/// in the catalog, in signal order.
pub open spec fn unrated_drop_entries(
    signals: Seq<(WorkId, EventSignals)>,
    rated: Seq<WorkId>,
    catalog: Seq<WorkId>,
) -> Seq<(WorkId, EventSignals)>
    decreases signals.len(),
{
    if signals.len() == 0 {
        Seq::empty()
    } else {
        let rest = unrated_drop_entries(signals.drop_last(), rated, catalog);
        let s = signals.last();
        if s.1.drop_progress is Some && !rated.contains(s.0) && catalog.contains(s.0) { rest.push(s) } else { rest }
    }
}

/// The identifiers of the rated works.
pub open spec fn rated_work_ids(ratings: Seq<RatingRecord>) -> Seq<WorkId> {
    ratings.map_values(|r: RatingRecord| r.spec_work_id())
}

/// The identifiers of the catalog.
pub open spec fn catalog_ids(dataset: OfflineDataset) -> Seq<WorkId> {
    dataset.spec_catalog().map_values(|w: crate::domain::NormalizedWork| w.spec_id())
}

fn contains_id(ids: &Vec<WorkId>, id: WorkId) -> (found: bool)
    ensures
        found == ids@.contains(id),
{
    let mut i: usize = 0;
    while i < ids.len()
        invariant
            i <= ids@.len(),
            forall|k: int| 0 <= k < i ==> ids@[k] != id,
        decreases ids.len() - i,
    {
        if ids[i] == id {
            assert(ids@[i as int] == id);
            return true;
        }
        i = i + 1;
    }
    false
}

/// An unrated drop is exactly a gathered signal of a dropped work that no
/// rating is about and that the catalog holds: a rated work never gets a
/// second affinity from its drop.
pub proof fn lemma_unrated_drop_members(
    signals: Seq<(WorkId, EventSignals)>,
    ratings: Seq<RatingRecord>,
    catalog: Seq<WorkId>,
    entry: (WorkId, EventSignals),
)
    ensures
        unrated_drop_entries(signals, rated_work_ids(ratings), catalog).contains(entry) <==> {
            &&& signals.contains(entry)
            &&& entry.1.drop_progress is Some
            &&& forall|j: int| 0 <= j < ratings.len() ==> (#[trigger] ratings[j]).spec_work_id() != entry.0
            &&& catalog.contains(entry.0)
        },
    decreases signals.len(),
{
    let rated = rated_work_ids(ratings);
    assert(rated.contains(entry.0) <==> exists|j: int| 0 <= j < ratings.len() && (#[trigger] ratings[j]).spec_work_id() == entry.0) by {
        if rated.contains(entry.0) {
            let j = choose|j: int| 0 <= j < rated.len() && rated[j] == entry.0;
            assert(ratings[j].spec_work_id() == entry.0);
        }
        if exists|j: int| 0 <= j < ratings.len() && (#[trigger] ratings[j]).spec_work_id() == entry.0 {
            let j = choose|j: int| 0 <= j < ratings.len() && (#[trigger] ratings[j]).spec_work_id() == entry.0;
            assert(rated[j] == entry.0);
        }
    }
    if signals.len() > 0 {
        let rest = signals.drop_last();
        lemma_unrated_drop_members(rest, ratings, catalog, entry);
        assert(signals.contains(entry) <==> rest.contains(entry) || signals.last() == entry) by {
            if signals.contains(entry) {
                let i = choose|i: int| 0 <= i < signals.len() && signals[i] == entry;
                if i < signals.len() - 1 {
                    assert(rest[i] == entry);
                }
            }
            if rest.contains(entry) {
                let i = choose|i: int| 0 <= i < rest.len() && rest[i] == entry;
                assert(signals[i] == entry);
            }
            if signals.last() == entry {
                assert(signals[signals.len() - 1] == entry);
            }
        }
        let before = unrated_drop_entries(rest, rated, catalog);
        let s = signals.last();
        if s.1.drop_progress is Some && !rated.contains(s.0) && catalog.contains(s.0) {
            assert(unrated_drop_entries(signals, rated, catalog) == before.push(s));
            assert(before.push(s).contains(entry) <==> before.contains(entry) || s == entry) by {
                if before.push(s).contains(entry) {
                    let i = choose|i: int| 0 <= i < before.push(s).len() && before.push(s)[i] == entry;
                    if i < before.len() {
                        assert(before[i] == entry);
                    }
                }
                if before.contains(entry) {
                    let i = choose|i: int| 0 <= i < before.len() && before[i] == entry;
                    assert(before.push(s)[i] == entry);
                }
                if s == entry {
                    assert(before.push(s)[before.len() as int] == entry);
                }
            }
        } else {
            assert(unrated_drop_entries(signals, rated, catalog) == before);
        }
    }
}

/// The dropped works without a rating that stand in the catalog, with their
/// signals, by identifier.
pub fn unrated_drops(dataset: &OfflineDataset, signals: &Vec<(WorkId, EventSignals)>) -> (drops: Vec<(WorkId, EventSignals)>)
    requires
        forall|a: int, b: int| 0 <= a < b < signals@.len() ==> (#[trigger] signals@[a]).0 != (#[trigger] signals@[b]).0,
    ensures
        drops@.to_multiset() =~= unrated_drop_entries(signals@, rated_work_ids(dataset.spec_ratings()), catalog_ids(*dataset)).to_multiset(),
        forall|a: int, b: int| 0 <= a < b < drops@.len() ==> (#[trigger] drops@[a]).0.spec_value() < (#[trigger] drops@[b]).0.spec_value(),
        forall|entry: (WorkId, EventSignals)| drops@.contains(entry) <==> {
            &&& signals@.contains(entry)
            &&& entry.1.drop_progress is Some
            &&& forall|j: int| 0 <= j < dataset.spec_ratings().len() ==> (#[trigger] dataset.spec_ratings()[j]).spec_work_id() != entry.0
            &&& catalog_ids(*dataset).contains(entry.0)
        },
{
    let ratings = dataset.ratings();
    let catalog = dataset.catalog();
    let mut rated: Vec<WorkId> = Vec::new();
    let mut r: usize = 0;
    while r < ratings.len()
        invariant
            r <= ratings@.len(),
            rated@ == rated_work_ids(ratings@.take(r as int)),
        decreases ratings.len() - r,
    {
        rated.push(ratings[r].work_id());
        assert(rated_work_ids(ratings@.take(r + 1)) =~= rated_work_ids(ratings@.take(r as int)).push(ratings@[r as int].spec_work_id()));
        r = r + 1;
    }
    assert(ratings@.take(ratings@.len() as int) =~= ratings@);
    let mut known: Vec<WorkId> = Vec::new();
    let mut c: usize = 0;
    while c < catalog.len()
        invariant
            c <= catalog@.len(),
            known@ == catalog@.take(c as int).map_values(|w: crate::domain::NormalizedWork| w.spec_id()),
        decreases catalog.len() - c,
    {
        known.push(catalog[c].id());
        assert(catalog@.take(c + 1).map_values(|w: crate::domain::NormalizedWork| w.spec_id())
            =~= catalog@.take(c as int).map_values(|w: crate::domain::NormalizedWork| w.spec_id()).push(catalog@[c as int].spec_id()));
        c = c + 1;
    }
    assert(catalog@.take(catalog@.len() as int) =~= catalog@);
    let ghost wanted = unrated_drop_entries(signals@, rated@, known@);
    let mut keyed: Vec<((u64, u64, u64), (WorkId, EventSignals))> = Vec::new();
    let mut i: usize = 0;
    while i < signals.len()
        invariant
            i <= signals@.len(),
            items_of(keyed@) == unrated_drop_entries(signals@.take(i as int), rated@, known@),
            forall|x: int| 0 <= x < keyed@.len() ==> (#[trigger] keyed@[x]).0 == (keyed@[x].1.0.spec_value() as u64, 0u64, 0u64),
        decreases signals.len() - i,
    {
        let s = signals[i];
        assert(signals@.take(i + 1).drop_last() =~= signals@.take(i as int));
        assert(signals@.take(i + 1).last() == s);
        if s.1.drop_progress.is_some() && !contains_id(&rated, s.0) && contains_id(&known, s.0) {
            let ghost prev = keyed@;
            keyed.push(((s.0.get() as u64, 0, 0), s));
            assert(items_of(keyed@) =~= items_of(prev).push(s));
        }
        i = i + 1;
    }
    assert(signals@.take(signals@.len() as int) =~= signals@);
    let ghost keyed_view = keyed@;
    proof {
        lemma_entries_distinct(signals@, rated@, known@);
        assert forall|a: int, b: int| 0 <= a < b < keyed_view.len() implies keyed_view[a].0 != keyed_view[b].0 by {
            assert(items_of(keyed_view)[a] == keyed_view[a].1);
            assert(items_of(keyed_view)[b] == keyed_view[b].1);
            WorkId::lemma_value_injective(keyed_view[a].1.0, keyed_view[b].1.0);
        }
    }
    let sorted = crate::sort::sort_by_key(keyed);
    let ghost sorted_view = sorted@;
    proof {
        crate::sort::lemma_sorted_distinct_keys(sorted_view, keyed_view);
        crate::sort::lemma_map_multiset(sorted_view, keyed_view, |p: ((u64, u64, u64), (WorkId, EventSignals))| p.1);
    }
    let drops = crate::sort::strip_keys(sorted);
    proof {
        assert forall|a: int, b: int| 0 <= a < b < drops@.len() implies (#[trigger] drops@[a]).0.spec_value() < (#[trigger] drops@[b]).0.spec_value() by {
            assert(key_less(sorted_view[a].0, sorted_view[b].0));
            let x = crate::sort::lemma_member_of_permutation(sorted_view, keyed_view, a);
            let y = crate::sort::lemma_member_of_permutation(sorted_view, keyed_view, b);
        }
        assert forall|entry: (WorkId, EventSignals)| drops@.contains(entry) <==> {
            &&& signals@.contains(entry)
            &&& entry.1.drop_progress is Some
            &&& forall|j: int| 0 <= j < dataset.spec_ratings().len() ==> (#[trigger] dataset.spec_ratings()[j]).spec_work_id() != entry.0
            &&& catalog_ids(*dataset).contains(entry.0)
        } by {
            lemma_unrated_drop_members(signals@, dataset.spec_ratings(), catalog_ids(*dataset), entry);
            let wanted_all = unrated_drop_entries(signals@, rated_work_ids(dataset.spec_ratings()), catalog_ids(*dataset));
            assert(drops@.to_multiset().count(entry) == wanted_all.to_multiset().count(entry));
        }
    }
    drops
}

proof fn lemma_entries_distinct(signals: Seq<(WorkId, EventSignals)>, rated: Seq<WorkId>, catalog: Seq<WorkId>)
    requires
        forall|a: int, b: int| 0 <= a < b < signals.len() ==> (#[trigger] signals[a]).0 != (#[trigger] signals[b]).0,
    ensures
        forall|a: int, b: int| 0 <= a < b < unrated_drop_entries(signals, rated, catalog).len()
            ==> (#[trigger] unrated_drop_entries(signals, rated, catalog)[a]).0 != (#[trigger] unrated_drop_entries(signals, rated, catalog)[b]).0,
        forall|a: int| 0 <= a < unrated_drop_entries(signals, rated, catalog).len()
            ==> signals.contains(#[trigger] unrated_drop_entries(signals, rated, catalog)[a]),
    decreases signals.len(),
{
    if signals.len() > 0 {
        let rest = signals.drop_last();
        lemma_entries_distinct(rest, rated, catalog);
        let all = unrated_drop_entries(signals, rated, catalog);
        let part = unrated_drop_entries(rest, rated, catalog);
        assert forall|a: int| 0 <= a < all.len() implies signals.contains(#[trigger] all[a]) by {
            if a < part.len() {
                assert(all[a] == part[a]);
                assert(rest.contains(part[a]));
                let k = choose|k: int| 0 <= k < rest.len() && rest[k] == part[a];
                assert(signals[k] == part[a]);
            } else {
                assert(all[a] == signals[signals.len() - 1]);
            }
        }
        assert forall|a: int, b: int| 0 <= a < b < all.len() implies (#[trigger] all[a]).0 != (#[trigger] all[b]).0 by {
            if b < part.len() {
                assert(all[a] == part[a]);
                assert(all[b] == part[b]);
            } else {
                assert(all[a] == part[a]);
                assert(all[b] == signals.last());
                assert(rest.contains(part[a]));
                let k = choose|k: int| 0 <= k < rest.len() && rest[k] == part[a];
                assert(signals[k] == part[a]);
                assert(signals[k].0 != signals[signals.len() - 1].0);
            }
        }
    }
}

/// The message of an affinity failure.
pub open spec fn affinity_message(e: AffinityError) -> Seq<char> {
    match e {
        AffinityError::NoRatings => "cannot calculate affinity without ratings"@,
        AffinityError::HistoryTooLarge => "history exceeds supported size"@,
        AffinityError::InvalidComputedMean => "calculated rating mean is invalid"@,
        AffinityError::InvalidComputedAffinity { work_id } =>
            "calculated affinity for work "@ + decimal_of(work_id.spec_value() as nat) + " is not finite"@,
        AffinityError::InvalidConfiguration { field, reason } => "invalid affinity configuration "@ + field@ + ": "@ + reason@,
    }
}

impl AffinityError {
    /// The message of the failure.
    pub fn message(&self) -> (text: String)
        ensures
            text@ == affinity_message(*self),
    {
        match self {
            AffinityError::NoRatings => String::from_str("cannot calculate affinity without ratings"),
            AffinityError::HistoryTooLarge => String::from_str("history exceeds supported size"),
            AffinityError::InvalidComputedMean => String::from_str("calculated rating mean is invalid"),
            AffinityError::InvalidComputedAffinity { work_id } => {
                let mut text = String::from_str("calculated affinity for work ");
                text.append(crate::text::decimal(work_id.get()).as_str());
                text.append(" is not finite");
                text
            },
            AffinityError::InvalidConfiguration { field, reason } => {
                let mut text = String::from_str("invalid affinity configuration ");
                text.append(field);
                text.append(": ");
                text.append(reason);
                text
            },
        }
    }
}

} // verus!
