use watchmind::api::{normalize_comment, one, replace_rating, search_text_is_blank, twenty, unrated_works};
use watchmind::catalog::{
    graphql_failure, map_format, normalize_media, page_request, AniListNormalizer, CatalogCache, CatalogError, Media, MediaTag,
};
use watchmind::cli::{help_text, usage, DatasetArguments, OutputFormat};
use watchmind::domain::{DomainError, DropProgress, NormalizedWork, PersonalAxis, Rating, RatingRecord, WatchEvent, WorkFormat, WorkId};
use watchmind::import::OfflineDataset;
use watchmind::fusion::{rank_map, rank_of};
use watchmind::storage::{axis_name, backup_version_supported, event_from_row, event_row, parse_axis, snapshot_timestamp};

fn tag(name: &str, rank: u8, spoiler: bool) -> MediaTag {
    MediaTag { name: name.to_owned(), rank, is_media_spoiler: spoiler, weight_bits: (f64::from(rank) / 100.0).to_bits() }
}

fn death_note() -> Media {
    Media {
        id: 1535,
        user_preferred_title: Some("Death Note".to_owned()),
        romaji_title: Some("Death Note".to_owned()),
        english_title: Some("Death Note".to_owned()),
        native_title: None,
        score_bits: Some((f64::from(84u8) / 10.0).to_bits()),
        duration: Some(23),
        episodes: Some(37),
        format: Some("TV".to_owned()),
        start_year: Some(2006),
        tags: vec![tag("Psychological", 95, false), tag("Detective", 80, false), tag("Twist", 70, true)],
        studios: vec!["Madhouse".to_owned()],
    }
}

#[test]
fn normalizes_anilist_media_without_network() {
    let work = normalize_media(death_note()).expect("media should normalize");
    assert_eq!(work.id().get(), 1535);
    assert_eq!(work.title(), "Death Note");
    assert!((f64::from_bits(work.global_score().expect("score").get()) - 8.4).abs() < f64::EPSILON);
    assert_eq!(work.runtime_minutes().expect("runtime").get(), 851);
    assert_eq!(work.release_year().expect("year").get(), 2006);
    assert_eq!(work.studios(), &["Madhouse".to_owned()]);
    assert_eq!(work.tags().len(), 2, "spoiler tags must be excluded");
    assert_eq!(work.format(), Some(WorkFormat::Tv));
}

#[test]
fn media_without_titles_or_ranks_falls_back() {
    let mut media = death_note();
    media.user_preferred_title = None;
    media.romaji_title = None;
    media.english_title = None;
    media.episodes = None;
    media.start_year = Some(1850);
    media.format = Some("MANGA".to_owned());
    media.tags = vec![tag("Zero", 0, false)];
    let work = normalize_media(media).unwrap();
    assert_eq!(work.title(), "AniList #1535");
    assert_eq!(work.runtime_minutes().unwrap().get(), 23);
    assert!(work.release_year().is_none());
    assert!(work.format().is_none());
    assert!(work.tags().is_empty());

    let mut invalid = death_note();
    invalid.id = 0;
    assert_eq!(
        normalize_media(invalid).unwrap_err(),
        DomainError::InvalidValue { field: "work_id", reason: "must be greater than zero" }
    );
}

#[test]
fn exposes_graphql_errors() {
    let failure = graphql_failure(&vec!["rate limited".to_owned(), "retry later".to_owned()]).unwrap();
    assert!(failure.contains("rate limited"));
    assert_eq!(failure, "rate limited; retry later");
    assert!(graphql_failure(&vec![]).is_none());
    assert_eq!(map_format("TV_SHORT"), Some(WorkFormat::Tv));
    assert_eq!(map_format("MUSIC"), Some(WorkFormat::Music));
}

#[test]
fn cache_honors_expiration() {
    let cache = CatalogCache::new("/tmp/catalog".to_owned(), 60);
    assert!(cache.is_fresh(1_000, 1_060));
    assert!(!cache.is_fresh(1_000, 1_061));
    assert!(cache.is_fresh(1_000, 10));
}

#[test]
fn cache_paths_are_hashed_per_search_page() {
    let cache = CatalogCache::new("/tmp/catalog".to_owned(), 60);
    let path = cache.path_for("  Death Note ", 1, 10);
    assert_eq!(path, cache.path_for("death note", 1, 10));
    assert_ne!(path, cache.path_for("death note", 2, 10));
    assert!(path.starts_with("/tmp/catalog/"));
    assert!(path.ends_with(".json"));
    assert_eq!(path.len(), "/tmp/catalog/".len() + 64 + ".json".len());
    assert_eq!(page_request(0, 0), (1, 1));
    assert_eq!(page_request(3, 80), (3, 50));
}

#[test]
fn axes_and_events_round_trip_through_rows() {
    for axis in [
        PersonalAxis::Story,
        PersonalAxis::Characters,
        PersonalAxis::WorldBuilding,
        PersonalAxis::VisualDirection,
        PersonalAxis::SoundAndMusic,
    ] {
        assert_eq!(parse_axis(axis_name(axis)), Ok(axis));
    }
    assert!(parse_axis("plot").is_err());
    let event = WatchEvent::dropped(WorkId::new(8).unwrap(), DropProgress::new(3, 12).unwrap());
    let row = event_row(event);
    assert_eq!(row.kind, "dropped");
    assert_eq!(event_from_row(row.work_id, row.kind, row.position.unwrap(), row.total.unwrap()), Some(Ok(event)));
    assert_eq!(event_from_row(8, "paused", 0, 0), None);
    assert!(event_from_row(-1, "completed", 0, 0).unwrap().is_err());
    assert!(snapshot_timestamp(u64::MAX).is_err());
    assert_eq!(snapshot_timestamp(42), Ok(42));
    assert!(backup_version_supported(1) && backup_version_supported(2) && !backup_version_supported(3));
}

fn strings(values: &[&str]) -> Vec<String> {
    values.iter().map(|v| (*v).to_owned()).collect()
}

#[test]
fn dataset_arguments_follow_the_documented_grammar() {
    let usage_line = usage("evaluate");
    let parsed = DatasetArguments::parse(
        &strings(&["ratings.csv", "--catalog", "catalog.json", "--config", "eval.json", "--json"]),
        true,
        usage_line,
    )
    .unwrap();
    assert_eq!(parsed.ratings, "ratings.csv");
    assert_eq!(parsed.catalog, "catalog.json");
    assert_eq!(parsed.config.as_deref(), Some("eval.json"));
    assert_eq!(parsed.output, OutputFormat::Json);
    let refused = DatasetArguments::parse(&strings(&["ratings.csv", "--config", "eval.json"]), false, usage("recommend"));
    assert_eq!(refused.unwrap_err(), usage("recommend"));
    assert!(DatasetArguments::parse(&strings(&["--json"]), false, usage("recommend")).is_err());
    assert!(DatasetArguments::parse(&strings(&["ratings.csv"]), false, usage("recommend")).is_err());
    assert_eq!(usage("unknown"), "usage: watchmind-cli <command> --help");
    assert!(help_text().starts_with("Commands: import-csv"));
}

#[test]
fn api_requests_use_their_defaults_and_trim_comments() {
    assert_eq!((one(), twenty()), (1, 20));
    assert!(search_text_is_blank("   "));
    assert!(!search_text_is_blank(" naruto "));
    assert_eq!(normalize_comment(Some("  great  ".to_owned())), Some("great".to_owned()));
    assert_eq!(normalize_comment(Some("   ".to_owned())), None);
    assert_eq!(normalize_comment(None), None);
}

#[test]
fn ranks_are_one_based_and_the_last_occurrence_wins() {
    let ranking = vec![WorkId::new(3).unwrap(), WorkId::new(1).unwrap(), WorkId::new(3).unwrap()];
    let ranks = rank_map(&ranking);
    assert_eq!(rank_of(&ranks, WorkId::new(1).unwrap()), Some(2));
    assert_eq!(rank_of(&ranks, WorkId::new(3).unwrap()), Some(3));
    assert_eq!(rank_of(&ranks, WorkId::new(9).unwrap()), None);
}

#[test]
fn refused_media_report_the_first_failing_check() {
    let mut media = death_note();
    media.score_bits = Some(11.0_f64.to_bits());
    media.user_preferred_title = Some("   ".to_owned());
    assert_eq!(
        normalize_media(media).unwrap_err(),
        DomainError::InvalidValue { field: "rating", reason: "is outside the allowed range" }
    );

    let mut media = death_note();
    media.tags = vec![tag("Drama", 90, false), tag("  ", 50, false), tag("drama", 40, false)];
    assert_eq!(normalize_media(media).unwrap_err(), DomainError::EmptyText { field: "tag.name" });

    let mut media = death_note();
    media.tags = vec![tag("Drama", 90, false), tag("DRAMA ", 50, false)];
    assert_eq!(normalize_media(media).unwrap_err(), DomainError::DuplicateTag("DRAMA".to_owned()));

    let mut media = death_note();
    media.studios = vec!["Madhouse".to_owned(), " ".to_owned()];
    assert_eq!(normalize_media(media).unwrap_err(), DomainError::EmptyText { field: "work.studio" });

    let mut second = death_note();
    second.id = 0;
    assert_eq!(
        AniListNormalizer::normalize_answer(vec![], Some(vec![death_note(), second])).unwrap_err(),
        CatalogError::Domain(DomainError::InvalidValue { field: "work_id", reason: "must be greater than zero" })
    );
    assert_eq!(AniListNormalizer::normalize_answer(vec![], None).unwrap(), vec![]);
}

fn rating(id: u32, value: f64) -> RatingRecord {
    RatingRecord::new(WorkId::new(id).unwrap(), Rating::new(value.to_bits()).unwrap(), vec![]).unwrap()
}

#[test]
fn a_new_rating_replaces_the_previous_one_or_is_appended() {
    let ratings = vec![rating(1, 7.0), rating(2, 5.0)];
    let replaced = replace_rating(ratings.clone(), rating(2, 9.0));
    assert_eq!(replaced, vec![rating(1, 7.0), rating(2, 9.0)]);
    let appended = replace_rating(ratings, rating(3, 6.0));
    assert_eq!(appended, vec![rating(1, 7.0), rating(2, 5.0), rating(3, 6.0)]);
}

#[test]
fn snapshots_score_the_unrated_works() {
    let work = |id: u32| NormalizedWork::new(WorkId::new(id).unwrap(), format!("Work {id}"), None, vec![]).unwrap();
    let dataset = OfflineDataset::from_parts(vec![work(3), work(1), work(2)], vec![rating(2, 8.0)], vec![]).unwrap();
    let ids = unrated_works(&dataset).iter().map(|w| w.id().get()).collect::<Vec<_>>();
    assert_eq!(ids, vec![1, 3]);
}

#[test]
fn an_answer_normalizes_each_media_in_order() {
    let mut second = death_note();
    second.id = 20;
    second.user_preferred_title = Some("  Naruto ".to_owned());
    let works = AniListNormalizer::normalize_answer(vec![], Some(vec![death_note(), second.clone()])).unwrap();
    assert_eq!(works, vec![normalize_media(death_note()).unwrap(), normalize_media(second).unwrap()]);
    assert_eq!(works[1].title(), "Naruto");
}
