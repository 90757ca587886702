use watchmind::affinity::{
    aggregate_events, rating_signal_kind, unrated_drops, AffinityConfig, AffinityError, RatingSignalKind,
};
use watchmind::domain::{DropProgress, NormalizedWork, Rating, RatingRecord, WatchEvent, WorkId};
use watchmind::import::OfflineDataset;
use watchmind::profile::{
    all_axes, normalized_tag_key, pole_plan, validate_positive_count, AxisProfile, ProfileError, ProfileMode, TasteProfileConfig,
};
use watchmind::scoring::{ScoringConfig, ScoringError};
use watchmind::domain::PersonalAxis;

fn bits(value: f64) -> u64 {
    value.to_bits()
}

fn affinity(min: f64, max: f64, exponent: f64) -> Result<AffinityConfig, AffinityError> {
    AffinityConfig::new(
        bits(2.0), bits(10.0), bits(0.5), bits(0.4), 300, bits(min), bits(max), bits(1.5), bits(exponent),
        Rating::new(bits(7.0)).unwrap(), bits(0.5), bits(0.15),
    )
}

#[test]
fn configuration_rejects_invalid_relations_and_non_finite_values() {
    assert_eq!(
        affinity(2.0, 1.0, 1.5).unwrap_err(),
        AffinityError::InvalidConfiguration {
            field: "rewatch_duration_factor_min",
            reason: "must not exceed rewatch_duration_factor_max",
        }
    );
    assert_eq!(
        affinity(0.5, 2.0, 0.0).unwrap_err(),
        AffinityError::InvalidConfiguration { field: "drop_curve_exponent", reason: "must be finite and greater than zero" }
    );
    assert_eq!(affinity(0.5, 2.0, 1.5).unwrap(), AffinityConfig::default());
    assert!(AffinityConfig::new(
        bits(f64::NAN), bits(10.0), bits(0.5), bits(0.4), 300, bits(0.5), bits(2.0), bits(1.5), bits(1.5),
        Rating::new(bits(7.0)).unwrap(), bits(0.5), bits(0.15),
    )
    .is_err());
}

#[test]
fn ratings_are_classified_around_the_neutral_band() {
    let config = AffinityConfig::default();
    let good = Rating::new(bits(7.5)).unwrap();
    let poor = Rating::new(bits(4.0)).unwrap();
    assert_eq!(rating_signal_kind(good, bits(-0.5), &config), RatingSignalKind::GoodButNotForMe);
    assert_eq!(rating_signal_kind(poor, bits(-0.5), &config), RatingSignalKind::Negative);
    assert_eq!(rating_signal_kind(good, bits(0.5), &config), RatingSignalKind::Positive);
    assert_eq!(rating_signal_kind(good, bits(0.1), &config), RatingSignalKind::Neutral);
    assert_eq!(rating_signal_kind(poor, bits(-0.15), &config), RatingSignalKind::Neutral);
}

#[test]
fn events_are_gathered_per_work() {
    let one = WorkId::new(1).unwrap();
    let two = WorkId::new(2).unwrap();
    let events = vec![
        WatchEvent::completed(one),
        WatchEvent::rewatched(one),
        WatchEvent::rewatched(one),
        WatchEvent::dropped(two, DropProgress::new(1, 12).unwrap()),
        WatchEvent::dropped(two, DropProgress::new(3, 12).unwrap()),
    ];
    let signals = aggregate_events(&events).unwrap();
    assert_eq!(signals.len(), 2);
    let first = signals.iter().find(|(id, _)| *id == one).unwrap().1;
    assert_eq!(first.rewatch_count, 2);
    assert_eq!(first.drop_progress, None);
    let second = signals.iter().find(|(id, _)| *id == two).unwrap().1;
    assert_eq!(second.drop_progress, Some(DropProgress::new(3, 12).unwrap()));

    let catalog = vec![
        NormalizedWork::new(one, "One".to_owned(), None, vec![]).unwrap(),
        NormalizedWork::new(two, "Two".to_owned(), None, vec![]).unwrap(),
    ];
    let ratings = vec![RatingRecord::new(one, Rating::new(bits(8.0)).unwrap(), vec![]).unwrap()];
    let dataset = OfflineDataset::from_parts(catalog, ratings, events).unwrap();
    let drops = unrated_drops(&dataset, &signals);
    assert_eq!(drops.len(), 1);
    assert_eq!(drops[0].0, two);
}

#[test]
fn rejects_invalid_profile_configuration() {
    let error = TasteProfileConfig::new(AffinityConfig::default(), bits(0.0), bits(150.0), 30, bits(0.25), 5, 3, 10)
        .unwrap_err();
    assert_eq!(
        error,
        ProfileError::InvalidConfiguration { field: "tag_shrinkage", reason: "must be greater than zero" }
    );
    let negative = TasteProfileConfig::new(AffinityConfig::default(), bits(2.0), bits(-1.0), 30, bits(0.25), 5, 3, 10);
    assert_eq!(
        negative.unwrap_err(),
        ProfileError::InvalidConfiguration { field: "tag_confidence_shrinkage", reason: "must not be negative" }
    );
    let valid = TasteProfileConfig::new(AffinityConfig::default(), bits(2.0), bits(150.0), 30, bits(0.25), 5, 3, 10).unwrap();
    assert_eq!(valid, TasteProfileConfig::default());
    assert!(validate_positive_count("minimum_axis_observations", 0).is_err());
}

#[test]
fn axis_prior_weighs_each_axis_equally() {
    let prior = AxisProfile::prior(3);
    assert_eq!(prior.weights().len(), 5);
    assert_eq!(prior.weight_for(PersonalAxis::SoundAndMusic).get(), 0.2f64.to_bits());
    assert_eq!(prior.observed_works(), 3);
    assert_eq!(all_axes()[2], PersonalAxis::WorldBuilding);
    assert_eq!(normalized_tag_key("Slice of Life"), "slice of life");
}

#[test]
fn explainable_scoring_configuration_fixture_is_the_documented_v1_default() {
    let config = ScoringConfig::default();
    assert_eq!(config.tag_affinity_weight(), bits(1.0));
    assert_eq!(config.negative_tag_penalty_weight(), bits(1.0));
    assert_eq!(config.pole_similarity_weight(), bits(0.35));
    assert_eq!(config.anilist_prior_weight(), bits(0.10));
}

#[test]
fn refuses_a_prior_that_is_not_weak() {
    let error = ScoringConfig::new(bits(1.0), bits(1.0), bits(0.35), bits(0.5)).unwrap_err();
    assert_eq!(
        error,
        ScoringError::InvalidConfiguration { field: "anilist_prior_weight", reason: "is outside the allowed range" }
    );
    assert!(ScoringConfig::new(bits(0.0), bits(1.0), bits(0.35), bits(0.1)).is_err());
}

#[test]
fn pole_count_follows_history_and_favorites() {
    assert_eq!(pole_plan(29, 10, 30), (ProfileMode::SparseHistory, 1));
    assert_eq!(pole_plan(30, 1, 30), (ProfileMode::SparseFavorites, 1));
    assert_eq!(pole_plan(30, 10, 30), (ProfileMode::Clustered, 2));
    assert_eq!(pole_plan(95, 10, 30), (ProfileMode::Clustered, 4));
    assert_eq!(pole_plan(200, 10, 30), (ProfileMode::Clustered, 4));
    assert_eq!(pole_plan(200, 3, 30), (ProfileMode::Clustered, 3));
}

#[test]
fn configuration_fixture_matches_the_v1_defaults() {
    let documented = AffinityConfig::new(
        bits(2.0),
        bits(10.0),
        bits(0.5),
        bits(0.4),
        300,
        bits(0.5),
        bits(2.0),
        bits(1.5),
        bits(1.5),
        Rating::new(bits(7.0)).unwrap(),
        bits(0.5),
        bits(0.15),
    )
    .unwrap();
    assert_eq!(documented, AffinityConfig::default());
}

#[test]
fn taste_profile_configuration_fixture_is_the_documented_v1_default() {
    let documented =
        TasteProfileConfig::new(AffinityConfig::default(), bits(2.0), bits(150.0), 30, bits(0.25), 5, 3, 10).unwrap();
    assert_eq!(documented, TasteProfileConfig::default());
}
