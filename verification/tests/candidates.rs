use watchmind::candidates::{CandidateError, CandidateFilter, CandidateRequest};
use watchmind::domain::{
    NormalizedWork, Rating, RatingRecord, ReleaseYear, TagWeight, WatchEvent, Weight, WorkFormat, WorkId,
};
use watchmind::import::OfflineDataset;
use watchmind::scoring::RecommendationEngine;

fn rating(value: f64) -> Rating {
    Rating::new(value.to_bits()).unwrap()
}

fn work(id: u32, score: f64) -> NormalizedWork {
    NormalizedWork::new(
        WorkId::new(id).unwrap(),
        format!("Work {id}"),
        Some(rating(score)),
        vec![TagWeight::new("Drama".to_owned(), Weight::new(1.0f64.to_bits()).unwrap()).unwrap()],
    )
    .unwrap()
    .with_format(WorkFormat::Tv)
    .with_release_year(ReleaseYear::new(2023).unwrap())
}

fn dataset() -> OfflineDataset {
    let catalog = vec![
        work(1, 9.0),
        work(2, 8.0),
        work(3, 8.0).with_format(WorkFormat::Movie),
        work(4, 8.0).with_release_year(ReleaseYear::new(2010).unwrap()),
        work(5, 5.0),
        work(6, 8.0).with_availability(false),
        work(7, 8.0).with_prerequisites(vec![WorkId::new(99).unwrap()]).unwrap(),
        work(8, 8.0),
        work(9, 9.0),
    ];
    let ratings = vec![RatingRecord::new(WorkId::new(1).unwrap(), rating(9.0), vec![]).unwrap()];
    OfflineDataset::from_parts(catalog, ratings, vec![WatchEvent::completed(WorkId::new(1).unwrap())]).unwrap()
}

fn strict_request() -> CandidateRequest {
    CandidateRequest::new(
        vec![WorkId::new(2).unwrap()],
        vec![WorkFormat::Tv],
        Some(ReleaseYear::new(2020).unwrap()),
        Some(ReleaseYear::new(2025).unwrap()),
        Some(rating(7.0)),
        true,
        true,
        1,
    )
    .unwrap()
}

#[test]
fn candidate_generation_configuration_fixture_is_the_documented_v1_default() {
    let request = CandidateRequest::default();
    assert!(request.blacklisted().is_empty());
    assert!(request.formats().is_empty());
    assert_eq!(request.minimum_year(), None);
    assert_eq!(request.maximum_year(), None);
    assert_eq!(request.minimum_global_score(), None);
    assert!(request.require_available());
    assert!(request.require_prerequisites());
    assert_eq!(request.limit(), 100);
}

#[test]
fn reports_the_first_filter_that_eliminates_each_catalog_work() {
    let candidates = RecommendationEngine::default().generate_candidates(&dataset(), &strict_request());
    let report = candidates.report();

    assert_eq!(report.catalog_count(), 9);
    assert_eq!(report.accepted_count(), 1);
    for filter in [
        CandidateFilter::Seen,
        CandidateFilter::Blacklisted,
        CandidateFilter::Format,
        CandidateFilter::ReleaseYear,
        CandidateFilter::GlobalScore,
        CandidateFilter::Availability,
        CandidateFilter::Prerequisites,
        CandidateFilter::Limit,
    ] {
        assert_eq!(report.eliminated_by(filter), 1, "filter {filter:?}");
    }
    assert_eq!(candidates.works()[0].id(), WorkId::new(9).unwrap());
    assert_eq!(
        report.line(),
        "candidates: catalog=9 accepted=1 seen=1 blacklisted=1 format=1 year=1 score=1 unavailable=1 prerequisites=1 limit=1"
    );
}

#[test]
fn seen_work_and_inaccessible_sequel_never_become_candidates() {
    let candidates = RecommendationEngine::default().generate_candidates(&dataset(), &CandidateRequest::default());
    let ids = candidates.works().iter().map(|work| work.id().get()).collect::<Vec<_>>();
    assert!(!ids.contains(&1));
    assert!(!ids.contains(&7));
}

#[test]
fn survivors_are_pre_ranked_by_score_then_identifier() {
    let candidates = RecommendationEngine::default().generate_candidates(&dataset(), &CandidateRequest::default());
    let ids = candidates.works().iter().map(|work| work.id().get()).collect::<Vec<_>>();
    assert_eq!(ids, vec![9, 2, 3, 4, 8, 5]);
    assert_eq!(candidates.report().eliminated_by(CandidateFilter::Availability), 1);
    assert_eq!(candidates.report().eliminated_by(CandidateFilter::Limit), 0);
}

#[test]
fn validates_ranges_duplicates_and_nonzero_limit() {
    let limit = CandidateRequest::new(vec![], vec![], None, None, None, true, true, 0);
    assert_eq!(
        limit.unwrap_err(),
        CandidateError::InvalidConfiguration { field: "limit", reason: "must be greater than zero" }
    );
    let blacklist = CandidateRequest::new(
        vec![WorkId::new(2).unwrap(), WorkId::new(2).unwrap()], vec![], None, None, None, true, true, 100,
    );
    assert_eq!(
        blacklist.unwrap_err(),
        CandidateError::InvalidConfiguration { field: "blacklisted", reason: "must not contain duplicates" }
    );
    let formats = CandidateRequest::new(vec![], vec![WorkFormat::Tv, WorkFormat::Tv], None, None, None, true, true, 100);
    assert_eq!(
        formats.unwrap_err(),
        CandidateError::InvalidConfiguration { field: "formats", reason: "must not contain duplicates" }
    );
    let years = CandidateRequest::new(
        vec![],
        vec![],
        Some(ReleaseYear::new(2025).unwrap()),
        Some(ReleaseYear::new(2020).unwrap()),
        None,
        true,
        true,
        100,
    );
    assert_eq!(
        years.unwrap_err(),
        CandidateError::InvalidConfiguration { field: "release_year", reason: "minimum_year must not exceed maximum_year" }
    );
}

#[test]
fn requests_keep_their_lists_in_order() {
    let request = CandidateRequest::new(
        vec![WorkId::new(5).unwrap(), WorkId::new(2).unwrap()],
        vec![WorkFormat::Ova, WorkFormat::Tv],
        None,
        None,
        None,
        false,
        false,
        3,
    )
    .unwrap();
    assert_eq!(request.blacklisted(), &[WorkId::new(2).unwrap(), WorkId::new(5).unwrap()]);
    assert_eq!(request.formats(), &[WorkFormat::Tv, WorkFormat::Ova]);
}

#[test]
fn candidates_are_distinct_catalog_works() {
    let dataset = dataset();
    let candidates = RecommendationEngine::default().generate_candidates(&dataset, &CandidateRequest::default());
    let mut ids = candidates.works().iter().map(|work| work.id().get()).collect::<Vec<_>>();
    for work in candidates.works() {
        assert!(dataset.catalog().contains(work));
    }
    ids.sort_unstable();
    ids.dedup();
    assert_eq!(ids.len(), candidates.works().len());
}
