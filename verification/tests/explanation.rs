use watchmind::domain::{Contribution, ContributionSource, ScoreDelta};
use watchmind::explanation::ScoreExplanation;

fn contribution(value: f64, detail: &str) -> Contribution {
    let source = if value < 0.0 { ContributionSource::Penalty } else { ContributionSource::TagAffinity };
    Contribution::new(source, ScoreDelta::new(value.to_bits()).unwrap(), detail.to_owned()).unwrap()
}

fn details(contributions: &[Contribution]) -> Vec<&str> {
    contributions.iter().map(Contribution::detail).collect()
}

#[test]
fn explanation_keeps_the_three_best_reasons_and_the_two_main_risks() {
    let contributions = vec![
        contribution(0.5, "b"),
        contribution(0.5, "a"),
        contribution(0.9, "c"),
        contribution(0.1, "d"),
        contribution(-0.3, "x"),
        contribution(-0.8, "y"),
        contribution(-0.3, "w"),
        contribution(0.0, "z"),
    ];
    let explanation = ScoreExplanation::from_contributions(&contributions);
    assert_eq!(details(explanation.reasons()), vec!["c", "a", "b"]);
    assert_eq!(details(explanation.risks()), vec!["y", "w"]);
}

#[test]
fn explanation_of_a_neutral_score_is_empty() {
    let contributions = vec![contribution(0.0, "flat"), contribution(-0.0, "flat too")];
    let explanation = ScoreExplanation::from_contributions(&contributions);
    assert!(explanation.reasons().is_empty());
    assert!(explanation.risks().is_empty());
    let single = vec![contribution(0.2, "only")];
    let explanation = ScoreExplanation::from_contributions(&single);
    assert_eq!(details(explanation.reasons()), vec!["only"]);
}

#[test]
fn tied_contributions_keep_the_order_they_were_given_in() {
    let delta = ScoreDelta::new(0.4f64.to_bits()).unwrap();
    let contributions = vec![
        Contribution::new(ContributionSource::PoleSimilarity, delta, "same".to_owned()).unwrap(),
        Contribution::new(ContributionSource::TagAffinity, delta, "same".to_owned()).unwrap(),
        Contribution::new(ContributionSource::AnilistPrior, delta, "same".to_owned()).unwrap(),
    ];
    let explanation = ScoreExplanation::from_contributions(&contributions);
    let sources = explanation.reasons().iter().map(Contribution::source).collect::<Vec<_>>();
    assert_eq!(
        sources,
        vec![ContributionSource::PoleSimilarity, ContributionSource::TagAffinity, ContributionSource::AnilistPrior]
    );
}
