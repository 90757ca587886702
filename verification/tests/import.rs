use watchmind::domain::{NormalizedWork, Rating, WatchEvent, WorkId};
use watchmind::import::{rating_texts, ImportError, ImportSummary, OfflineDataset};

fn numbers(csv: &str) -> Vec<Option<u64>> {
    rating_texts(csv.as_bytes())
        .iter()
        .map(|text| text.as_ref().and_then(|field| field.parse::<f64>().ok()).map(f64::to_bits))
        .collect()
}

fn work(id: u32, title: &str, score: f64) -> NormalizedWork {
    NormalizedWork::new(
        WorkId::new(id).unwrap(),
        title.to_owned(),
        Some(Rating::new(score.to_bits()).unwrap()),
        vec![],
    )
    .unwrap()
}

fn import(csv: &str, catalog: Vec<NormalizedWork>) -> Result<OfflineDataset, ImportError> {
    OfflineDataset::import(csv.as_bytes(), &numbers(csv), catalog)
}

#[test]
fn import_orders_outputs_and_builds_events() {
    let csv = "work_id,rating,status,drop_position,total_episodes,rewatches\n\
               2,4,dropped,3,12,0\n\
               1,9,completed,,,2\n";
    let dataset = import(csv, vec![work(1, "One", 8.0), work(2, "Two", 7.0)]).unwrap();

    assert_eq!(dataset.ratings()[0].work_id().get(), 1);
    assert_eq!(dataset.catalog()[0].id().get(), 1);
    assert_eq!(
        dataset.summary(),
        ImportSummary { catalog: 2, ratings: 2, completed: 1, dropped: 1, rewatches: 2 }
    );
    assert_eq!(
        dataset.summary().line(),
        "import ok: catalog=2 ratings=2 completed=1 dropped=1 rewatches=2"
    );
    assert_eq!(
        dataset.events()[0],
        WatchEvent::completed(WorkId::new(1).unwrap())
    );
    assert_eq!(dataset.events()[1], WatchEvent::rewatched(WorkId::new(1).unwrap()));
}

#[test]
fn catalog_rejects_duplicate_ids() {
    let csv = "work_id,rating,status,drop_position,total_episodes,rewatches\n";
    let error = import(csv, vec![work(1, "One", 8.0), work(1, "Again", 7.0)]).unwrap_err();
    assert_eq!(error, ImportError::DuplicateCatalogWork { work_id: WorkId::new(1).unwrap() });
    assert_eq!(error.message(), "catalog.json: duplicate work_id 1");
}

#[test]
fn duplicate_rating_reports_both_lines() {
    let csv = "work_id,rating,status,drop_position,total_episodes,rewatches\n\
               1,9,completed,,,0\n\
               1,8,completed,,,0\n";
    let error = import(csv, vec![work(1, "One", 8.0)]).unwrap_err();
    assert_eq!(
        error,
        ImportError::DuplicateRating { work_id: WorkId::new(1).unwrap(), first_line: 2, duplicate_line: 3 }
    );
    assert_eq!(
        error.message(),
        "ratings.csv at line 3: duplicate work_id 1 (first seen at line 2)"
    );
}

#[test]
fn unknown_identifier_reports_its_line() {
    let csv = "work_id,rating,status,drop_position,total_episodes,rewatches\n\
               5,9,completed,,,0\n";
    let error = import(csv, vec![work(1, "One", 8.0)]).unwrap_err();
    assert_eq!(error, ImportError::UnknownWork { work_id: WorkId::new(5).unwrap(), line: 2 });
    assert_eq!(
        error.message(),
        "ratings.csv at line 2, field work_id, value \"5\": identifier is absent from catalog.json"
    );
}

#[test]
fn unexpected_headers_are_reported_in_full() {
    let csv = "work_id,score\n1,9\n";
    let error = import(csv, vec![work(1, "One", 8.0)]).unwrap_err();
    assert_eq!(
        error.message(),
        "ratings.csv headers: expected work_id,rating,status,drop_position,total_episodes,rewatches, found work_id,score"
    );
}

#[test]
fn datasets_built_in_memory_keep_their_parts() {
    let ratings = vec![];
    let events = vec![WatchEvent::completed(WorkId::new(2).unwrap())];
    let dataset = OfflineDataset::from_parts(vec![work(2, "Two", 7.0), work(1, "One", 8.0)], ratings, events).unwrap();
    assert_eq!(dataset.catalog()[0].id().get(), 1);
    assert_eq!(dataset.catalog()[1].id().get(), 2);
    assert_eq!(dataset.events().len(), 1);
    let refused = OfflineDataset::from_parts(vec![work(2, "Two", 7.0), work(2, "Deux", 7.0)], vec![], vec![]);
    assert_eq!(refused.unwrap_err(), ImportError::DuplicateCatalogWork { work_id: WorkId::new(2).unwrap() });
}

#[test]
fn rating_texts_follow_the_records() {
    let csv = "work_id,rating,status,drop_position,total_episodes,rewatches\n\
               2, 4.5 ,dropped,3,12,0\n\
               1,nine,completed,,,2\n";
    assert_eq!(rating_texts(csv.as_bytes()), vec![Some("4.5".to_owned()), Some("nine".to_owned())]);
    let error = import(csv, vec![work(1, "One", 8.0), work(2, "Two", 7.0)]).unwrap_err();
    assert!(matches!(error, ImportError::InvalidField { line: 3, field: "rating", .. }));
}

#[test]
fn row_order_does_not_change_the_dataset() {
    let first = "work_id,rating,status,drop_position,total_episodes,rewatches\n\
                 2,4,dropped,3,12,0\n\
                 1,9,completed,,,2\n\
                 3,7.5,completed,,,0\n";
    let second = "work_id,rating,status,drop_position,total_episodes,rewatches\n\
                  3,7.5,completed,,,0\n\
                  1,9,completed,,,2\n\
                  2,4,dropped,3,12,0\n";
    let catalog = || vec![work(3, "Three", 6.0), work(1, "One", 8.0), work(2, "Two", 7.0)];
    let mut reversed = catalog();
    reversed.reverse();
    assert_eq!(import(first, catalog()).unwrap(), import(second, reversed).unwrap());
}

#[test]
fn out_of_range_rating_reports_the_field_and_value() {
    let csv = "work_id,rating,status,drop_position,total_episodes,rewatches\n\
               1,10.5,completed,,,0\n";
    let error = import(csv, vec![work(1, "One", 8.0)]).unwrap_err();
    assert!(matches!(
        error,
        ImportError::InvalidField { line: 2, field: "rating", ref value, .. } if value == "10.5"
    ));
}

#[test]
fn inconsistent_drop_reports_both_progress_values() {
    let csv = "work_id,rating,status,drop_position,total_episodes,rewatches\n\
               1,4,dropped,24,24,0\n";
    let error = import(csv, vec![work(1, "One", 8.0)]).unwrap_err();
    assert!(matches!(
        error,
        ImportError::InvalidField { line: 2, field: "drop_position,total_episodes", ref value, .. } if value == "24,24"
    ));
}
