use watchmind::affinity::AffinityError;
use watchmind::candidates::CandidateError;
use watchmind::catalog::CatalogError;
use watchmind::diversification::DiversificationError;
use watchmind::domain::{DomainError, WorkId};
use watchmind::evaluation::EvaluationError;
use watchmind::profile::ProfileError;
use watchmind::scoring::ScoringError;

#[test]
fn failures_read_as_sentences() {
    let work = WorkId::new(42).unwrap();
    assert_eq!(AffinityError::NoRatings.message(), "cannot calculate affinity without ratings");
    assert_eq!(
        AffinityError::InvalidComputedAffinity { work_id: work }.message(),
        "calculated affinity for work 42 is not finite"
    );
    assert_eq!(
        ProfileError::Affinity(AffinityError::NoRatings).message(),
        "cannot build taste profile: cannot calculate affinity without ratings"
    );
    assert_eq!(ProfileError::MissingCatalogWork { work_id: work }.message(), "catalog work 42 is missing");
    assert_eq!(
        DiversificationError::Scoring(ScoringError::Domain(DomainError::EmptyText { field: "contribution.detail" })).message(),
        "cannot diversify recommendations: cannot score recommendation: contribution.detail must not be empty"
    );
    assert_eq!(DiversificationError::MissingScoredCandidate { work_id: work }.message(), "scoring did not return candidate 42");
    assert_eq!(
        CandidateError::InvalidConfiguration { field: "limit", reason: "must be greater than zero" }.message(),
        "invalid candidate request limit: must be greater than zero"
    );
    assert_eq!(
        EvaluationError::NoRelevantRatings.message(),
        "baseline evaluation requires at least one rating"
    );
    assert_eq!(
        CatalogError::GraphQl("rate limited".to_owned()).message(),
        "AniList returned GraphQL errors: rate limited"
    );
    assert_eq!(
        CatalogError::Domain(DomainError::InvalidValue { field: "work_id", reason: "must be greater than zero" }).message(),
        "invalid normalized work: invalid work_id: must be greater than zero"
    );
}
