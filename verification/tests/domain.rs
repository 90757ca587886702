use watchmind::domain::{
    AspectCredit, Contribution, ContributionSource, DomainError, DropProgress, NormalizedWork,
    PersonalAxis, Rating, RatingRecord, Ratio, ReleaseYear, RuntimeMinutes, ScoreDelta, TagWeight,
    WatchEvent, Weight, WorkFormat, WorkId,
};
use watchmind::engine_name;

fn weight(value: f64) -> Weight {
    Weight::new(value.to_bits()).unwrap()
}

#[test]
fn exposes_the_stable_engine_name() {
    assert_eq!(engine_name(), "WatchMind");
}

#[test]
fn numeric_types_reject_invalid_values() {
    assert!(Rating::new((-0.1f64).to_bits()).is_err());
    assert!(Rating::new(10.1f64.to_bits()).is_err());
    assert!(Ratio::new(f64::NAN.to_bits()).is_err());
    assert!(Ratio::new(1.1f64.to_bits()).is_err());
    assert!(Weight::new((-0.1f64).to_bits()).is_err());
    assert!(ScoreDelta::new(f64::INFINITY.to_bits()).is_err());
}

#[test]
fn numeric_types_keep_valid_values_and_report_the_field() {
    assert_eq!(Rating::new(10.0f64.to_bits()).unwrap().get(), 10.0f64.to_bits());
    assert_eq!(Rating::new((-0.0f64).to_bits()).unwrap().get(), (-0.0f64).to_bits());
    assert_eq!(
        Rating::new(f64::NAN.to_bits()),
        Err(DomainError::InvalidValue { field: "rating", reason: "must be finite" })
    );
    assert_eq!(
        Ratio::new(1.5f64.to_bits()),
        Err(DomainError::InvalidValue { field: "ratio", reason: "is outside the allowed range" })
    );
    assert_eq!(
        WorkId::new(0),
        Err(DomainError::InvalidValue { field: "work_id", reason: "must be greater than zero" })
    );
    assert_eq!(WorkId::new(7).unwrap().get(), 7);
    assert!(RuntimeMinutes::new(0).is_err());
    assert!(ReleaseYear::new(1899).is_err());
    assert_eq!(ReleaseYear::new(1900).unwrap().get(), 1900);
}

#[test]
fn normalized_work_rejects_duplicate_tags_ignoring_case() {
    let tags = vec![
        TagWeight::new("Drama".to_owned(), weight(0.8)).unwrap(),
        TagWeight::new("drama".to_owned(), weight(0.4)).unwrap(),
    ];
    let error = NormalizedWork::new(WorkId::new(1).unwrap(), "Title".to_owned(), None, tags)
        .expect_err("duplicate tag should fail");
    assert_eq!(error, DomainError::DuplicateTag("drama".to_owned()));
}

#[test]
fn normalized_work_trims_its_title_and_orders_its_tags() {
    let tags = vec![
        TagWeight::new("  Romance ".to_owned(), weight(0.3)).unwrap(),
        TagWeight::new("Action".to_owned(), weight(0.9)).unwrap(),
    ];
    let work = NormalizedWork::new(WorkId::new(3).unwrap(), "  Title  ".to_owned(), None, tags).unwrap();
    assert_eq!(work.title(), "Title");
    let names = work.tags().iter().map(|t| t.name().to_owned()).collect::<Vec<_>>();
    assert_eq!(names, vec!["Action".to_owned(), "Romance".to_owned()]);
    assert_eq!(work.tag_weight("ROMANCE").unwrap().get(), 0.3f64.to_bits());
    assert!(work.is_available());
    assert!(work.prerequisites().is_empty());
    assert_eq!(
        NormalizedWork::new(WorkId::new(3).unwrap(), "   ".to_owned(), None, vec![]),
        Err(DomainError::EmptyText { field: "work.title" })
    );
}

#[test]
fn builders_set_the_optional_facts() {
    let work = NormalizedWork::new(WorkId::new(4).unwrap(), "Four".to_owned(), None, vec![])
        .unwrap()
        .with_format(WorkFormat::Movie)
        .with_release_year(ReleaseYear::new(2001).unwrap())
        .with_runtime_minutes(RuntimeMinutes::new(90).unwrap())
        .with_availability(false);
    assert_eq!(work.format(), Some(WorkFormat::Movie));
    assert_eq!(work.release_year().unwrap().get(), 2001);
    assert_eq!(work.runtime_minutes().unwrap().get(), 90);
    assert!(!work.is_available());
    let refused = NormalizedWork::new(WorkId::new(4).unwrap(), "Four".to_owned(), None, vec![])
        .unwrap()
        .with_prerequisites(vec![WorkId::new(4).unwrap()]);
    assert_eq!(
        refused,
        Err(DomainError::InvalidValue { field: "work.prerequisites", reason: "must not contain the work itself" })
    );
    let studios = NormalizedWork::new(WorkId::new(4).unwrap(), "Four".to_owned(), None, vec![])
        .unwrap()
        .with_studios(vec![" Madhouse ".to_owned()])
        .unwrap();
    assert_eq!(studios.studios(), &["Madhouse".to_owned()]);
}

#[test]
fn rating_record_rejects_duplicate_axes() {
    let aspects = vec![
        AspectCredit::new(PersonalAxis::Story, weight(0.8)).unwrap(),
        AspectCredit::new(PersonalAxis::Story, weight(0.5)).unwrap(),
    ];
    let error = RatingRecord::new(WorkId::new(1).unwrap(), Rating::new(8.0f64.to_bits()).unwrap(), aspects)
        .expect_err("duplicate axis should fail");
    assert_eq!(error, DomainError::DuplicateAxis(PersonalAxis::Story));
    assert_eq!(error.message(), "duplicate personal axis: Story");
}

#[test]
fn drop_progress_rejects_completed_or_impossible_drops() {
    assert!(DropProgress::new(1, 0).is_err());
    assert!(DropProgress::new(12, 12).is_err());
    assert!(DropProgress::new(13, 12).is_err());
    let progress = DropProgress::new(3, 12).unwrap();
    assert_eq!((progress.position(), progress.total()), (3, 12));
    assert!((f64::from(progress.position()) / f64::from(progress.total()) - 0.25).abs() < f64::EPSILON);
}

#[test]
fn events_name_their_work() {
    let id = WorkId::new(9).unwrap();
    let progress = DropProgress::new(2, 10).unwrap();
    assert_eq!(WatchEvent::completed(id).work_id(), id);
    assert_eq!(WatchEvent::dropped(id, progress).drop_progress(), Some(progress));
    assert_eq!(WatchEvent::rewatched(id).drop_progress(), None);
}

#[test]
fn contributions_refuse_a_blank_detail() {
    let value = ScoreDelta::new((-0.25f64).to_bits()).unwrap();
    assert!(Contribution::new(ContributionSource::Penalty, value, "  ".to_owned()).is_err());
    let kept = Contribution::new(ContributionSource::Penalty, value, "franchise prerequisite".to_owned()).unwrap();
    assert_eq!(kept.detail(), "franchise prerequisite");
    assert_eq!(kept.value().get(), (-0.25f64).to_bits());
}

#[test]
fn domain_errors_read_as_messages() {
    assert_eq!(
        DomainError::InvalidValue { field: "rating", reason: "must be finite" }.message(),
        "invalid rating: must be finite"
    );
    assert_eq!(DomainError::EmptyText { field: "work.title" }.message(), "work.title must not be empty");
    assert_eq!(DomainError::DuplicateTag("drama".to_owned()).message(), "duplicate tag: drama");
}
