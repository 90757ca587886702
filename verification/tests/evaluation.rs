use watchmind::domain::{NormalizedWork, Rating, RatingRecord, WorkId};
use watchmind::evaluation::{
    descending_score, evaluation_cases, evaluation_plan, global_score_keys, random_key, random_keys, rank_by,
    rank_summary, relevance_threshold, target_rank, target_ranks, BaselineKind, EvaluationError, RANDOM_SEED,
    RELEVANT_RATING_THRESHOLD_BITS,
};
use watchmind::import::{rating_texts, OfflineDataset};

fn ranks(values: &[(u32, u32)]) -> Vec<watchmind::evaluation::TargetRank> {
    values
        .iter()
        .map(|(id, rank)| {
            let ranking = (1..=*rank)
                .map(|position| if position == *rank { WorkId::new(*id).unwrap() } else { WorkId::new(1000 + position).unwrap() })
                .collect::<Vec<_>>();
            target_rank(WorkId::new(*id).unwrap(), &ranking).unwrap()
        })
        .collect()
}

#[test]
fn random_key_is_stable_and_depends_on_the_identifier() {
    let first = random_key(RANDOM_SEED, WorkId::new(1).unwrap());
    assert_eq!(first, random_key(RANDOM_SEED, WorkId::new(1).unwrap()));
    assert_ne!(first, random_key(RANDOM_SEED, WorkId::new(2).unwrap()));
}

#[test]
fn metrics_use_one_based_ranks_and_requested_cutoffs() {
    let target_ranks = ranks(&[(1, 1), (2, 4), (3, 11), (4, 21)]);
    let summary = rank_summary(&target_ranks);
    let count = summary.count as f64;

    assert!((summary.median_twice as f64 / 2.0 - 7.5).abs() < f64::EPSILON);
    assert!((summary.within_10 as f64 / count - 0.5).abs() < f64::EPSILON);
    assert!((summary.within_20 as f64 / count - 0.75).abs() < f64::EPSILON);
    let mrr = target_ranks.iter().map(|t| 1.0 / f64::from(t.rank())).sum::<f64>() / count;
    let expected_mrr = (1.0 + 0.25 + 1.0 / 11.0 + 1.0 / 21.0) / 4.0;
    assert!((mrr - expected_mrr).abs() < f64::EPSILON);
}

#[test]
fn odd_counts_take_the_middle_rank() {
    let summary = rank_summary(&ranks(&[(1, 9), (2, 3), (3, 5)]));
    assert_eq!(summary.median_twice, 10);
    assert_eq!(summary.within_10, 3);
}

#[test]
fn target_rank_is_one_based_and_absent_targets_have_none() {
    let ranking = vec![WorkId::new(4).unwrap(), WorkId::new(7).unwrap()];
    let rank = target_rank(WorkId::new(7).unwrap(), &ranking).unwrap();
    assert_eq!((rank.work_id().get(), rank.rank()), (7, 2));
    assert!(target_rank(WorkId::new(9).unwrap(), &ranking).is_none());
}

fn work(id: u32, score: Option<f64>) -> NormalizedWork {
    NormalizedWork::new(
        WorkId::new(id).unwrap(),
        format!("Work {id}"),
        score.map(|s| Rating::new(s.to_bits()).unwrap()),
        vec![],
    )
    .unwrap()
}

fn rating(id: u32, value: f64) -> RatingRecord {
    RatingRecord::new(WorkId::new(id).unwrap(), Rating::new(value.to_bits()).unwrap(), vec![]).unwrap()
}

#[test]
fn cases_hide_each_favourite_among_the_unrated_works() {
    let catalog = vec![work(1, Some(7.0)), work(2, Some(9.0)), work(3, None), work(4, Some(6.0)), work(5, Some(8.0))];
    let ratings = vec![rating(1, 9.0), rating(2, 5.0), rating(5, 8.0)];
    let dataset = OfflineDataset::from_parts(catalog, ratings, vec![]).unwrap();
    let (threshold, cases) = evaluation_plan(&dataset, RELEVANT_RATING_THRESHOLD_BITS).unwrap();

    assert_eq!(f64::from_bits(threshold), 8.0);
    assert_eq!(cases, evaluation_cases(&dataset, threshold));
    assert_eq!(cases.len(), 2);
    assert_eq!(cases[0].target().get(), 1);
    assert_eq!(cases[0].candidates(), &[0, 2, 3]);
    assert_eq!(cases[0].liked_history(), &[4]);
    assert_eq!(cases[1].target().get(), 5);
    assert_eq!(cases[1].candidates(), &[2, 3, 4]);

    let catalog = dataset.catalog();
    let keys = global_score_keys(&cases[1], catalog);
    let ranking = rank_by(&cases[1], catalog, &keys);
    let ids = ranking.iter().map(|id| id.get()).collect::<Vec<_>>();
    assert_eq!(ids, vec![5, 4, 3]);
    assert_eq!(target_rank(cases[1].target(), &ranking).unwrap().rank(), 1);

    let random = random_keys(&cases[0], catalog, RANDOM_SEED);
    assert_eq!(random[0].0, random_key(RANDOM_SEED, WorkId::new(1).unwrap()));

    let all_keys = cases.iter().map(|case| global_score_keys(case, catalog)).collect::<Vec<_>>();
    let found = target_ranks(&cases, catalog, &all_keys).unwrap();
    assert_eq!(found.iter().map(|r| r.rank()).collect::<Vec<_>>(), vec![1, 1]);
}

#[test]
fn descending_scores_put_known_scores_first() {
    let high = descending_score(Some(9.0f64.to_bits()));
    let low = descending_score(Some(2.0f64.to_bits()));
    let unknown = descending_score(None);
    assert!(high < low);
    assert!(low < unknown);
    assert_eq!(BaselineKind::AnilistGlobalScore.label(), "anilist_global_score");
}

fn import(csv: &str, catalog: Vec<NormalizedWork>) -> OfflineDataset {
    let numbers = rating_texts(csv.as_bytes())
        .iter()
        .map(|text| text.as_ref().and_then(|field| field.parse::<f64>().ok()).map(f64::to_bits))
        .collect::<Vec<_>>();
    OfflineDataset::import(csv.as_bytes(), &numbers, catalog).unwrap()
}

fn small_catalog() -> Vec<NormalizedWork> {
    vec![work(1, Some(7.0)), work(2, Some(9.0)), work(3, None), work(4, Some(6.0)), work(5, Some(8.0))]
}

#[test]
fn evaluates_a_harsh_rater_on_their_own_distribution() {
    let ratings = "work_id,rating,status,drop_position,total_episodes,rewatches\n\
                   3,6.0,completed,,,0\n\
                   4,4.0,dropped,3,24,0\n";
    let dataset = import(ratings, small_catalog());

    let (threshold, cases) = evaluation_plan(&dataset, RELEVANT_RATING_THRESHOLD_BITS).unwrap();
    assert_eq!(f64::from_bits(threshold), 6.0);
    assert_eq!(cases.len(), 1);
    assert_eq!(cases[0].target().get(), 3);
    let catalog = dataset.catalog();
    let random = vec![random_keys(&cases[0], catalog, RANDOM_SEED)];
    let global = vec![global_score_keys(&cases[0], catalog)];
    assert_eq!(target_ranks(&cases, catalog, &random).unwrap().len(), 1);
    assert_eq!(target_ranks(&cases, catalog, &global).unwrap().len(), 1);
}

#[test]
fn refuses_a_dataset_without_any_rating() {
    let ratings = "work_id,rating,status,drop_position,total_episodes,rewatches\n";
    let dataset = import(ratings, small_catalog());
    assert_eq!(evaluation_plan(&dataset, RELEVANT_RATING_THRESHOLD_BITS).unwrap_err(), EvaluationError::NoRelevantRatings);
}

#[test]
fn the_threshold_is_the_lower_of_the_configured_value_and_the_upper_quartile() {
    let records = vec![rating(1, 9.0), rating(2, 5.0), rating(3, 7.0), rating(4, 9.5)];
    assert_eq!(f64::from_bits(relevance_threshold(&records, 8.0f64.to_bits())), 8.0);
    assert_eq!(f64::from_bits(relevance_threshold(&records, 9.8f64.to_bits())), 9.0);
    let harsh = vec![rating(1, 6.0), rating(2, 4.0), rating(3, 5.0)];
    assert_eq!(f64::from_bits(relevance_threshold(&harsh, 8.0f64.to_bits())), 6.0);
    assert_eq!(f64::from_bits(relevance_threshold(&[], 8.0f64.to_bits())), 8.0);
}
