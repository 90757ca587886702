use watchmind::diversification::{
    can_fill, count, decrement, increment, maximum_feasible_size, normalized_key, open_positions,
    select_next, selection_sizes, work_keys, DiversificationConfig, DiversificationError, KeyCounts, LimitState,
};
use watchmind::domain::{NormalizedWork, Ratio, TagWeight, Weight, WorkId};

fn work(id: u32, franchise: Option<&str>, studios: &[&str], tags: &[(&str, f64)]) -> NormalizedWork {
    let tags = tags
        .iter()
        .map(|(name, weight)| TagWeight::new((*name).to_owned(), Weight::new(weight.to_bits()).unwrap()).unwrap())
        .collect();
    let mut work = NormalizedWork::new(WorkId::new(id).unwrap(), format!("Work {id}"), None, tags)
        .unwrap()
        .with_studios(studios.iter().map(|s| (*s).to_owned()).collect())
        .unwrap();
    if let Some(franchise) = franchise {
        work = work.with_franchise(franchise.to_owned()).unwrap();
    }
    work
}

fn ratio(value: f64) -> Ratio {
    Ratio::new(value.to_bits()).unwrap()
}

#[test]
fn diversification_configuration_fixture_is_the_documented_v1_default() {
    let config = DiversificationConfig::default();
    assert_eq!(config.safe_count(), 8);
    assert_eq!(config.exploration_count(), 2);
    assert_eq!(config.mmr_relevance_weight().get(), 0.75f64.to_bits());
    assert_eq!(config.max_per_franchise(), 1);
    assert_eq!(config.max_per_studio(), 2);
    assert_eq!(config.max_per_dominant_tag(), 3);
    assert_eq!(config.dominant_tags_per_work(), 2);
}

#[test]
fn rejects_empty_requests_and_zero_caps() {
    let empty = DiversificationConfig::new(0, 0, ratio(0.75), 1, 2, 3, 2);
    assert_eq!(
        empty.unwrap_err(),
        DiversificationError::InvalidConfiguration {
            field: "safe_count,exploration_count",
            reason: "at least one requested count must be greater than zero",
        }
    );
    let studio = DiversificationConfig::new(8, 2, ratio(0.75), 1, 0, 3, 2);
    assert_eq!(
        studio.unwrap_err(),
        DiversificationError::InvalidConfiguration { field: "max_per_studio", reason: "must be greater than zero" }
    );
    let tags = DiversificationConfig::new(8, 2, ratio(0.75), 1, 2, 3, 0);
    assert!(tags.is_err());
    let size = DiversificationConfig::new(usize::MAX, 1, ratio(0.75), 1, 2, 3, 2);
    assert_eq!(
        size.unwrap_err(),
        DiversificationError::InvalidConfiguration { field: "safe_count,exploration_count", reason: "requested size is too large" }
    );
}

#[test]
fn counts_ignore_case_and_drop_a_name_at_zero() {
    let mut counts = KeyCounts::new();
    increment(&mut counts, "Madhouse");
    increment(&mut counts, "MADHOUSE");
    assert_eq!(count(&counts, "madhouse"), 2);
    decrement(&mut counts, "Madhouse");
    decrement(&mut counts, "madhouse");
    assert_eq!(count(&counts, "Madhouse"), 0);
    assert_eq!(counts, KeyCounts::new());
    assert_eq!(normalized_key("Studio Ghibli"), "studio ghibli");
}

#[test]
fn dominant_tags_are_the_heaviest_then_by_name() {
    let config = DiversificationConfig::default();
    let keys = work_keys(&work(1, None, &[], &[("Drama", 0.5), ("Action", 0.9), ("Comedy", 0.5)]), &config);
    let mut limits = LimitState::new();
    limits.add(&keys, &config);
    let other = work_keys(&work(2, None, &[], &[("action", 0.2)]), &config);
    assert!(limits.allows(&other, &config));
    limits.remove(&keys, &config);
    assert_eq!(limits, LimitState::new());
}

#[test]
fn feasibility_lookahead_keeps_the_requested_size() {
    let config = DiversificationConfig::default();
    let works = [
        work(1, Some("Saga"), &["A"], &[]),
        work(2, Some("Saga"), &["B"], &[]),
        work(3, None, &["A"], &[]),
        work(4, None, &["A"], &[]),
    ];
    let keys = works.iter().map(|w| work_keys(w, &config)).collect::<Vec<_>>();
    assert_eq!(maximum_feasible_size(&keys, &config, 4), 3);

    let mut limits = LimitState::new();
    let open = open_positions(keys.len(), &[]);
    assert_eq!(open, vec![0, 1, 2, 3]);
    assert!(can_fill(&keys, &config, &open, &mut limits, 3));
    assert!(!can_fill(&keys, &config, &open, &mut limits, 4));

    // The best-ranked work would leave only one more pick: the lookahead skips it.
    let ranked = vec![0, 2, 3, 1];
    let pick = select_next(&keys, &config, &ranked, &open, &mut limits, 2).unwrap();
    assert_eq!(pick, 2);
    limits.add(&keys[pick], &config);
    let open = open_positions(keys.len(), &[pick]);
    assert_eq!(open, vec![0, 1, 3]);
    let ranked = vec![0, 3, 1];
    let second = select_next(&keys, &config, &ranked, &open, &mut limits, 1).unwrap();
    assert_eq!(second, 3);
}

#[test]
fn selection_sizes_give_bets_their_share_first() {
    let config = DiversificationConfig::default();
    let works = (1..=12)
        .map(|id| work(id, None, &[], &[(["Drama", "Mystery", "Comedy", "Romance"][(id % 4) as usize], 0.8)]))
        .collect::<Vec<_>>();
    let keys = works.iter().map(|w| work_keys(w, &config)).collect::<Vec<_>>();
    // four dominant tags, three works each at most: twelve fit, ten are asked.
    assert_eq!(selection_sizes(&keys, &config), (2, 8));
    assert_eq!(selection_sizes(&keys[..1], &config), (1, 0));
    assert_eq!(selection_sizes(&keys[..3], &config), (2, 1));

    let same_franchise = (1..=5)
        .map(|id| work(id, Some("Saga"), &[], &[("Drama", 0.5)]))
        .collect::<Vec<_>>();
    let keys = same_franchise.iter().map(|w| work_keys(w, &config)).collect::<Vec<_>>();
    assert_eq!(selection_sizes(&keys, &config), (1, 0));
}
