//! The leave-one-out evaluation harness of the baselines.
//!
//! A rating is relevant at or above a threshold that follows the user's own
//! distribution: the configured value, or the 0.75 quantile of the ratings
//! when that is lower. Each relevant rating becomes a target: it is hidden,
//! the other favourites form the history, and the target is ranked among the
//! works the user has not rated. The rankings and the rank statistics are exact integer
//! computations; the ratios that summarise them are drawn by the caller.

use vstd::prelude::*;
use crate::domain::{NormalizedWork, RatingRecord, WorkId};
use crate::import::{OfflineDataset, works_by_id};
use crate::ieee::{less_than, total_order_key, is_finite, EIGHT_BITS};
use crate::sort::{key_less, items_of};

verus! {

broadcast use vstd::seq_lib::group_to_multiset_ensures;

/// The seed of the random baseline.
pub const RANDOM_SEED: u64 = 42;

/// The pattern of `8.0`, the configured relevance threshold of the baselines.
pub const RELEVANT_RATING_THRESHOLD_BITS: u64 = EIGHT_BITS;

/// A baseline of the report.
#[derive(Debug, Clone, Copy, PartialEq, Eq, Structural)]
pub enum BaselineKind {
    Random,
    AnilistGlobalScore,
    TagOverlap,
}

impl BaselineKind {
    /// The stable name of the baseline.
    pub fn label(&self) -> (label: &'static str)
        ensures
            *self == BaselineKind::Random ==> label@ == "random"@,
            *self == BaselineKind::AnilistGlobalScore ==> label@ == "anilist_global_score"@,
            *self == BaselineKind::TagOverlap ==> label@ == "tag_overlap"@,
    {
        proof {
            reveal_strlit("random");
            reveal_strlit("anilist_global_score");
            reveal_strlit("tag_overlap");
        }
        match self {
            BaselineKind::Random => "random",
            BaselineKind::AnilistGlobalScore => "anilist_global_score",
            BaselineKind::TagOverlap => "tag_overlap",
        }
    }
}

/// The rank at which a hidden target came out.
#[derive(Debug, Clone, Copy, PartialEq, Eq, Structural)]
pub struct TargetRank {
    work_id: WorkId,
    rank: u32,
}

impl TargetRank {
    /// The hidden work.
    pub closed spec fn spec_work_id(self) -> WorkId {
        self.work_id
    }

    /// Its one-based rank.
    pub closed spec fn spec_rank(self) -> u32 {
        self.rank
    }

    /// The hidden work.
    pub fn work_id(self) -> (id: WorkId)
        ensures
            id == self.spec_work_id(),
    {
        self.work_id
    }

    /// Its one-based rank.
    pub fn rank(self) -> (rank: u32)
        ensures
            rank == self.spec_rank(),
    {
        self.rank
    }
}

/// Why no evaluation case can be built.
#[derive(Debug, Clone, Copy, PartialEq, Eq, Structural)]
pub enum EvaluationError {
    NoRelevantRatings,
}

/// The pattern of a rating.
pub open spec fn rating_bits(r: RatingRecord) -> u64 {
    r.spec_rating().spec_bits()
}

/// How many ratings are at most `value`.
pub open spec fn count_at_most(ratings: Seq<RatingRecord>, value: u64) -> nat
    decreases ratings.len(),
{
    if ratings.len() == 0 {
        0
    } else {
        count_at_most(ratings.drop_last(), value) + if less_than(value, rating_bits(ratings.last())) { 0nat } else { 1nat }
    }
}

/// At least three quarters of the ratings are at most `value`.
pub open spec fn covers_three_quarters(ratings: Seq<RatingRecord>, value: u64) -> bool {
    4 * count_at_most(ratings, value) >= 3 * ratings.len()
}

/// `q` is the 0.75 quantile of the ratings (nearest rank): one of the ratings,
/// at least three quarters of the ratings are at most `q`, and no rating
/// below `q` has that property.
pub open spec fn is_upper_quartile(ratings: Seq<RatingRecord>, q: u64) -> bool {
    &&& exists|i: int| 0 <= i < ratings.len() && #[trigger] rating_bits(ratings[i]) == q
    &&& covers_three_quarters(ratings, q)
    &&& forall|j: int| 0 <= j < ratings.len() && covers_three_quarters(ratings, #[trigger] rating_bits(ratings[j]))
        ==> !less_than(rating_bits(ratings[j]), q)
}

/// The relevance threshold bounded by the personal distribution:
/// `min(configured, 0.75 quantile of the ratings)`, the configured value
/// itself when there is no rating.
pub open spec fn bounded_threshold(ratings: Seq<RatingRecord>, configured: u64, threshold: u64) -> bool {
    if ratings.len() == 0 {
        threshold == configured
    } else {
        exists|q: u64| #[trigger] is_upper_quartile(ratings, q)
            && threshold == (if less_than(q, configured) { q } else { configured })
    }
}

/// A rating at or above the threshold.
pub open spec fn is_relevant(rating: RatingRecord, threshold: u64) -> bool {
    !less_than(rating_bits(rating), threshold)
}

/// The works rated at or above the threshold, in rating order.
pub open spec fn relevant_targets(ratings: Seq<RatingRecord>, threshold: u64) -> Seq<WorkId>
    decreases ratings.len(),
{
    if ratings.len() == 0 {
        Seq::empty()
    } else {
        let rest = relevant_targets(ratings.drop_last(), threshold);
        if is_relevant(ratings.last(), threshold) { rest.push(ratings.last().spec_work_id()) } else { rest }
    }
}

/// The rated works.
pub open spec fn rated_ids(ratings: Seq<RatingRecord>) -> Seq<WorkId> {
    ratings.map_values(|r: RatingRecord| r.spec_work_id())
}

/// Whether a case keeps a work: for the history, a listed favourite other
/// than the target; for the candidates, an unlisted work or the target.
pub open spec fn keeps(ids: Seq<WorkId>, target: WorkId, liked: bool, id: WorkId) -> bool {
    if liked { ids.contains(id) && id != target } else { !ids.contains(id) || id == target }
}

/// The catalog positions, in order, of the works a case keeps.
pub open spec fn positions(works: Seq<NormalizedWork>, ids: Seq<WorkId>, target: WorkId, liked: bool) -> Seq<usize>
    decreases works.len(),
{
    if works.len() == 0 {
        Seq::empty()
    } else {
        let rest = positions(works.drop_last(), ids, target, liked);
        if keeps(ids, target, liked, works.last().spec_id()) { rest.push((works.len() - 1) as usize) } else { rest }
    }
}

/// The other favourites kept as history when `target` is hidden.
pub open spec fn liked_positions(catalog: Seq<NormalizedWork>, relevant: Seq<WorkId>, target: WorkId) -> Seq<usize> {
    positions(catalog, relevant, target, true)
}

/// The works ranked when `target` is hidden: those not rated, and the target.
pub open spec fn candidate_positions(catalog: Seq<NormalizedWork>, rated: Seq<WorkId>, target: WorkId) -> Seq<usize> {
    positions(catalog, rated, target, false)
}

/// One leave-one-out case: catalog positions of the history and of the candidates.
#[derive(Debug, Clone, PartialEq)]
pub struct EvaluationCase {
    target: WorkId,
    liked_history: Vec<usize>,
    candidates: Vec<usize>,
}

impl EvaluationCase {
    /// The hidden work.
    pub closed spec fn spec_target(self) -> WorkId {
        self.target
    }

    /// The catalog positions of the other favourites.
    pub closed spec fn spec_liked_history(self) -> Seq<usize> {
        self.liked_history@
    }

    /// The catalog positions of the works to rank.
    pub closed spec fn spec_candidates(self) -> Seq<usize> {
        self.candidates@
    }

    /// The hidden work.
    pub fn target(&self) -> (id: WorkId)
        ensures
            id == self.spec_target(),
    {
        self.target
    }

    /// The catalog positions of the other favourites.
    pub fn liked_history(&self) -> (positions: &[usize])
        ensures
            positions@ == self.spec_liked_history(),
    {
        self.liked_history.as_slice()
    }

    /// The catalog positions of the works to rank.
    pub fn candidates(&self) -> (positions: &[usize])
        ensures
            positions@ == self.spec_candidates(),
    {
        self.candidates.as_slice()
    }
}

fn keep_positions(catalog: &[NormalizedWork], keep_ids: &Vec<WorkId>, target: WorkId, liked: bool) -> (kept: Vec<usize>)
    ensures
        liked ==> kept@ == liked_positions(catalog@, keep_ids@, target),
        !liked ==> kept@ == candidate_positions(catalog@, keep_ids@, target),
{
    let mut kept: Vec<usize> = Vec::new();
    let mut c: usize = 0;
    while c < catalog.len()
        invariant
            c <= catalog@.len(),
            liked ==> kept@ == liked_positions(catalog@.take(c as int), keep_ids@, target),
            !liked ==> kept@ == candidate_positions(catalog@.take(c as int), keep_ids@, target),
        decreases catalog.len() - c,
    {
        let id = catalog[c].id();
        let listed = contains(keep_ids, id);
        let chosen = if liked { listed && id != target } else { !listed || id == target };
        assert(catalog@.take(c + 1).drop_last() =~= catalog@.take(c as int));
        assert(catalog@.take(c + 1).last() == catalog@[c as int]);
        assert(catalog@.take(c + 1).len() - 1 == c);
        if chosen {
            kept.push(c);
        }
        c = c + 1;
    }
    assert(catalog@.take(catalog@.len() as int) =~= catalog@);
    kept
}

fn contains(ids: &Vec<WorkId>, id: WorkId) -> (found: bool)
    ensures
        found == ids@.contains(id),
{
    let mut i: usize = 0;
    while i < ids.len()
        invariant
            i <= ids@.len(),
            forall|k: int| 0 <= k < i ==> ids@[k] != id,
        decreases ids.len() - i,
    {
        if ids[i] == id {
            assert(ids@[i as int] == id);
            return true;
        }
        i = i + 1;
    }
    false
}

/// The cases built for a threshold: one per rating at or above it, in rating
/// order, each hiding that rating's work, keeping the other relevant works as
/// history and ranking the works not rated together with the target.
pub open spec fn cases_built(dataset: OfflineDataset, threshold: u64, cases: Seq<EvaluationCase>) -> bool {
    let relevant = relevant_targets(dataset.spec_ratings(), threshold);
    &&& cases.len() == relevant.len()
    &&& forall|k: int| 0 <= k < cases.len() ==> {
        let target = relevant[k];
        &&& (#[trigger] cases[k]).spec_target() == target
        &&& cases[k].spec_liked_history() == liked_positions(dataset.spec_catalog(), relevant, target)
        &&& cases[k].spec_candidates() == candidate_positions(dataset.spec_catalog(), rated_ids(dataset.spec_ratings()), target)
    }
}

/// Builds one case per rating at or above `threshold`, in rating order.
pub fn evaluation_cases(dataset: &OfflineDataset, threshold: u64) -> (cases: Vec<EvaluationCase>)
    requires
        is_finite(threshold),
    ensures
        cases_built(*dataset, threshold, cases@),
{
    let ratings = dataset.ratings();
    let catalog = dataset.catalog();
    let mut rated: Vec<WorkId> = Vec::new();
    let mut relevant: Vec<WorkId> = Vec::new();
    let mut r: usize = 0;
    while r < ratings.len()
        invariant
            ratings@ == dataset.spec_ratings(),
            r <= ratings@.len(),
            rated@ == rated_ids(ratings@.take(r as int)),
            relevant@ == relevant_targets(ratings@.take(r as int), threshold),
            is_finite(threshold),
        decreases ratings.len() - r,
    {
        let record = &ratings[r];
        assert(ratings@.take(r + 1).drop_last() =~= ratings@.take(r as int));
        assert(rated_ids(ratings@.take(r + 1)) =~= rated_ids(ratings@.take(r as int)).push(record.spec_work_id()));
        rated.push(record.work_id());
        if !crate::ieee::lower(record.rating().get(), threshold) {
            relevant.push(record.work_id());
        }
        r = r + 1;
    }
    assert(ratings@.take(ratings@.len() as int) =~= ratings@);
    let mut cases: Vec<EvaluationCase> = Vec::new();
    let mut t: usize = 0;
    while t < relevant.len()
        invariant
            ratings@ == dataset.spec_ratings(),
            catalog@ == dataset.spec_catalog(),
            rated@ == rated_ids(ratings@),
            relevant@ == relevant_targets(ratings@, threshold),
            t <= relevant@.len(),
            cases@.len() == t,
            forall|k: int| 0 <= k < t ==> {
                let target = relevant@[k];
                &&& (#[trigger] cases@[k]).spec_target() == target
                &&& cases@[k].spec_liked_history() == liked_positions(catalog@, relevant@, target)
                &&& cases@[k].spec_candidates() == candidate_positions(catalog@, rated@, target)
            },
        decreases relevant.len() - t,
    {
        let target = relevant[t];
        let liked_history = keep_positions(catalog, &relevant, target, true);
        let candidates = keep_positions(catalog, &rated, target, false);
        proof {
            assert(liked_positions(catalog@, relevant@, target) =~= liked_history@);
            assert(candidate_positions(catalog@, rated@, target) =~= candidates@);
        }
        cases.push(EvaluationCase { target, liked_history, candidates });
        t = t + 1;
    }
    cases
}

/// Counts the ratings at most `value`.
fn count_ratings_at_most(ratings: &[RatingRecord], value: u64) -> (count: usize)
    requires
        is_finite(value),
    ensures
        count == count_at_most(ratings@, value),
{
    let mut count: usize = 0;
    let mut i: usize = 0;
    while i < ratings.len()
        invariant
            i <= ratings@.len(),
            count == count_at_most(ratings@.take(i as int), value),
            count <= i,
            is_finite(value),
        decreases ratings.len() - i,
    {
        assert(ratings@.take(i + 1).drop_last() =~= ratings@.take(i as int));
        if !crate::ieee::lower(value, ratings[i].rating().get()) {
            count = count + 1;
        }
        i = i + 1;
    }
    assert(ratings@.take(ratings@.len() as int) =~= ratings@);
    count
}

proof fn lemma_count_all(ratings: Seq<RatingRecord>, value: u64)
    requires
        forall|j: int| 0 <= j < ratings.len() ==> !less_than(value, #[trigger] rating_bits(ratings[j])),
    ensures
        count_at_most(ratings, value) == ratings.len(),
    decreases ratings.len(),
{
    if ratings.len() > 0 {
        let rest = ratings.drop_last();
        assert forall|j: int| 0 <= j < rest.len() implies !less_than(value, #[trigger] rating_bits(rest[j])) by {
            assert(rest[j] == ratings[j]);
        }
        lemma_count_all(rest, value);
        assert(rating_bits(ratings[ratings.len() - 1]) == rating_bits(ratings.last()));
    }
}

proof fn lemma_largest_rating(ratings: Seq<RatingRecord>) -> (m: int)
    requires
        ratings.len() > 0,
    ensures
        0 <= m < ratings.len(),
        forall|j: int| 0 <= j < ratings.len() ==> !less_than(rating_bits(ratings[m]), #[trigger] rating_bits(ratings[j])),
    decreases ratings.len(),
{
    if ratings.len() == 1 {
        0
    } else {
        let rest = ratings.drop_last();
        let r = lemma_largest_rating(rest);
        let last = ratings.len() - 1;
        assert(rest[r] == ratings[r]);
        if less_than(rating_bits(ratings[r]), rating_bits(ratings[last])) {
            assert forall|j: int| 0 <= j < ratings.len() implies !less_than(rating_bits(ratings[last]), #[trigger] rating_bits(ratings[j])) by {
                if j < last {
                    assert(rest[j] == ratings[j]);
                }
            }
            last
        } else {
            assert forall|j: int| 0 <= j < ratings.len() implies !less_than(rating_bits(ratings[r]), #[trigger] rating_bits(ratings[j])) by {
                if j < last {
                    assert(rest[j] == ratings[j]);
                }
            }
            r
        }
    }
}

/// The relevance threshold of the evaluation: the configured threshold, or
/// the 0.75 quantile of the user's ratings when that is lower, so that a
/// harsh rater is judged on their own distribution.
pub fn relevance_threshold(ratings: &[RatingRecord], configured: u64) -> (threshold: u64)
    requires
        is_finite(configured),
    ensures
        bounded_threshold(ratings@, configured, threshold),
        is_finite(threshold),
{
    let n = ratings.len();
    let mut best: Option<u64> = None;
    let mut i: usize = 0;
    while i < n
        invariant
            n == ratings@.len(),
            i <= n,
            is_finite(configured),
            best matches Some(q) ==> is_finite(q),
            match best {
                None => forall|j: int| 0 <= j < i ==> !covers_three_quarters(ratings@, #[trigger] rating_bits(ratings@[j])),
                Some(q) => {
                    &&& exists|x: int| 0 <= x < i && #[trigger] rating_bits(ratings@[x]) == q
                    &&& covers_three_quarters(ratings@, q)
                    &&& forall|j: int| 0 <= j < i && covers_three_quarters(ratings@, #[trigger] rating_bits(ratings@[j]))
                        ==> !less_than(rating_bits(ratings@[j]), q)
                },
            },
        decreases n - i,
    {
        let value = ratings[i].rating().get();
        let count = count_ratings_at_most(ratings, value);
        let covers = (count as u128) * 4 >= (n as u128) * 3;
        assert(covers == covers_three_quarters(ratings@, value));
        let better = match best {
            None => true,
            Some(q) => crate::ieee::lower(value, q),
        };
        if covers && better {
            best = Some(value);
            proof {
                assert(rating_bits(ratings@[i as int]) == value);
            }
        }
        proof {
            match best {
                None => {},
                Some(q) => {
                    assert forall|j: int| 0 <= j < i + 1 && covers_three_quarters(ratings@, #[trigger] rating_bits(ratings@[j]))
                        implies !less_than(rating_bits(ratings@[j]), q) by {
                        if j == i {
                            assert(rating_bits(ratings@[j]) == value);
                        }
                    }
                },
            }
        }
        i = i + 1;
    }
    match best {
        None => {
            proof {
                if n > 0 {
                    let m = lemma_largest_rating(ratings@);
                    lemma_count_all(ratings@, rating_bits(ratings@[m]));
                    assert(covers_three_quarters(ratings@, rating_bits(ratings@[m])));
                }
            }
            configured
        },
        Some(q) => {
            proof {
                assert(is_upper_quartile(ratings@, q));
            }
            if crate::ieee::lower(q, configured) { q } else { configured }
        },
    }
}

/// A relevant rating makes the list of targets non-empty.
proof fn lemma_relevant_targets_nonempty(ratings: Seq<RatingRecord>, threshold: u64, i: int)
    requires
        0 <= i < ratings.len(),
        is_relevant(ratings[i], threshold),
    ensures
        relevant_targets(ratings, threshold).len() > 0,
    decreases ratings.len(),
{
    if i < ratings.len() - 1 {
        assert(ratings.drop_last()[i] == ratings[i]);
        lemma_relevant_targets_nonempty(ratings.drop_last(), threshold, i);
    }
}

/// Under the bounded threshold, every non-empty history has at least one
/// relevant rating: the 0.75 quantile itself is never below the threshold.
pub proof fn lemma_history_is_evaluable(ratings: Seq<RatingRecord>, configured: u64, threshold: u64)
    requires
        bounded_threshold(ratings, configured, threshold),
        ratings.len() > 0,
    ensures
        relevant_targets(ratings, threshold).len() > 0,
{
    let q = choose|q: u64| #[trigger] is_upper_quartile(ratings, q)
        && threshold == (if less_than(q, configured) { q } else { configured });
    let i = choose|i: int| 0 <= i < ratings.len() && #[trigger] rating_bits(ratings[i]) == q;
    assert(is_relevant(ratings[i], threshold));
    lemma_relevant_targets_nonempty(ratings, threshold, i);
}

/// The threshold and the cases of an evaluation with a configured threshold;
/// refused only when the user has no rating at all.
pub fn evaluation_plan(dataset: &OfflineDataset, configured: u64) -> (result: Result<(u64, Vec<EvaluationCase>), EvaluationError>)
    requires
        is_finite(configured),
    ensures
        result is Err <==> dataset.spec_ratings().len() == 0,
        result matches Err(e) ==> e == EvaluationError::NoRelevantRatings,
        result matches Ok(plan) ==> {
            &&& bounded_threshold(dataset.spec_ratings(), configured, plan.0)
            &&& cases_built(*dataset, plan.0, plan.1@)
            &&& plan.1@.len() > 0
        },
{
    let threshold = relevance_threshold(dataset.ratings(), configured);
    let cases = evaluation_cases(dataset, threshold);
    if cases.len() == 0 {
        proof {
            if dataset.spec_ratings().len() > 0 {
                lemma_history_is_evaluable(dataset.spec_ratings(), configured, threshold);
            }
        }
        return Err(EvaluationError::NoRelevantRatings);
    }
    proof {
        if dataset.spec_ratings().len() == 0 {
            assert(relevant_targets(dataset.spec_ratings(), threshold).len() == 0);
        }
    }
    Ok((threshold, cases))
}

/// The seeded integer mix that orders the random baseline.
pub open spec fn mixed(seed: u64, work_id: u32) -> u64 {
    let v0 = seed ^ (work_id as u64).wrapping_mul(0x9e37_79b9_7f4a_7c15u64);
    let v1 = (v0 ^ (v0 >> 30u64)).wrapping_mul(0xbf58_476d_1ce4_e5b9u64);
    let v2 = (v1 ^ (v1 >> 27u64)).wrapping_mul(0x94d0_49bb_1331_11ebu64);
    v2 ^ (v2 >> 31u64)
}

/// The random baseline's key of a work: a deterministic mix of the seed and
/// the identifier.
pub fn random_key(seed: u64, work_id: WorkId) -> (key: u64)
    ensures
        key == mixed(seed, work_id.spec_value()),
{
    let mut value = seed ^ (work_id.get() as u64).wrapping_mul(0x9e37_79b9_7f4a_7c15);
    value = (value ^ (value >> 30)).wrapping_mul(0xbf58_476d_1ce4_e5b9);
    value = (value ^ (value >> 27)).wrapping_mul(0x94d0_49bb_1331_11eb);
    value ^ (value >> 31)
}

/// The key of a descending score: known scores first, highest first as
/// `f64::total_cmp` orders them, unknown scores last.
pub open spec fn descending_score_key(score: Option<u64>) -> (u64, u64) {
    match score {
        Some(bits) => (0u64, (u64::MAX - total_order_key(bits)) as u64),
        None => (1u64, 0u64),
    }
}

/// Computes [`descending_score_key`].
pub fn descending_score(score: Option<u64>) -> (key: (u64, u64))
    ensures
        key == descending_score_key(score),
{
    match score {
        Some(bits) => (0, u64::MAX - crate::ieee::total_order_key_of(bits)),
        None => (1, 0),
    }
}

/// The random baseline's keys of a case's candidates.
pub fn random_keys(case: &EvaluationCase, catalog: &[NormalizedWork], seed: u64) -> (keys: Vec<(u64, u64)>)
    requires
        forall|p: int| 0 <= p < case.spec_candidates().len() ==> (#[trigger] case.spec_candidates()[p]) < catalog@.len(),
    ensures
        keys@.len() == case.spec_candidates().len(),
        forall|p: int| 0 <= p < keys@.len() ==> #[trigger] keys@[p] == (mixed(seed, catalog@[case.spec_candidates()[p] as int].spec_id().spec_value()), 0u64),
{
    let mut keys: Vec<(u64, u64)> = Vec::new();
    let candidates = case.candidates();
    let mut p: usize = 0;
    while p < candidates.len()
        invariant
            candidates@ == case.spec_candidates(),
            forall|q: int| 0 <= q < candidates@.len() ==> (#[trigger] candidates@[q]) < catalog@.len(),
            p <= candidates@.len(),
            keys@.len() == p,
            forall|q: int| 0 <= q < p ==> #[trigger] keys@[q] == (mixed(seed, catalog@[candidates@[q] as int].spec_id().spec_value()), 0u64),
        decreases candidates.len() - p,
    {
        let work = &catalog[candidates[p]];
        keys.push((random_key(seed, work.id()), 0));
        p = p + 1;
    }
    keys
}

/// The AniList-score baseline's keys of a case's candidates.
pub fn global_score_keys(case: &EvaluationCase, catalog: &[NormalizedWork]) -> (keys: Vec<(u64, u64)>)
    requires
        forall|p: int| 0 <= p < case.spec_candidates().len() ==> (#[trigger] case.spec_candidates()[p]) < catalog@.len(),
    ensures
        keys@.len() == case.spec_candidates().len(),
        forall|p: int| 0 <= p < keys@.len() ==> #[trigger] keys@[p] == descending_score_key(
            match catalog@[case.spec_candidates()[p] as int].spec_core().global_score {
                Some(s) => Some(s.spec_bits()),
                None => None,
            },
        ),
{
    let mut keys: Vec<(u64, u64)> = Vec::new();
    let candidates = case.candidates();
    let mut p: usize = 0;
    while p < candidates.len()
        invariant
            candidates@ == case.spec_candidates(),
            forall|q: int| 0 <= q < candidates@.len() ==> (#[trigger] candidates@[q]) < catalog@.len(),
            p <= candidates@.len(),
            keys@.len() == p,
            forall|q: int| 0 <= q < p ==> #[trigger] keys@[q] == descending_score_key(
                match catalog@[candidates@[q] as int].spec_core().global_score {
                    Some(s) => Some(s.spec_bits()),
                    None => None,
                },
            ),
        decreases candidates.len() - p,
    {
        let work = &catalog[candidates[p]];
        let score = match work.global_score() {
            Some(s) => Some(s.get()),
            None => None,
        };
        keys.push(descending_score(score));
        p = p + 1;
    }
    keys
}

/// The full key of the `p`-th candidate: its baseline key, then its identifier.
pub open spec fn ranking_key(case: EvaluationCase, catalog: Seq<NormalizedWork>, keys: Seq<(u64, u64)>, p: int) -> (u64, u64, u64) {
    (keys[p].0, keys[p].1, catalog[case.spec_candidates()[p] as int].spec_id().spec_value() as u64)
}

/// Whether `ranked` lists the identifiers of a case's candidates `order[0]`,
/// `order[1]`, … where `order` visits every candidate once, in strictly
/// increasing full key.
pub open spec fn is_ranking(case: EvaluationCase, catalog: Seq<NormalizedWork>, keys: Seq<(u64, u64)>, ranked: Seq<WorkId>) -> bool {
    exists|order: Seq<int>| {
        &&& order.len() == keys.len()
        &&& ranked.len() == keys.len()
        &&& order.no_duplicates()
        &&& (forall|i: int| 0 <= i < order.len() ==> 0 <= #[trigger] order[i] < keys.len())
        &&& (forall|i: int| 0 <= i < order.len() ==> #[trigger] ranked[i] == catalog[case.spec_candidates()[order[i]] as int].spec_id())
        &&& (forall|i: int, j: int| 0 <= i < j < order.len() ==> key_less(
            ranking_key(case, catalog, keys, #[trigger] order[i]),
            ranking_key(case, catalog, keys, #[trigger] order[j]),
        ))
    }
}

/// The one-based rank of a target in a ranking: its first position, plus one.
pub open spec fn ranked_at(ranked: Seq<WorkId>, target: WorkId, rank: u32) -> bool {
    &&& 1 <= rank <= ranked.len()
    &&& ranked[rank - 1] == target
    &&& forall|i: int| 0 <= i < rank - 1 ==> ranked[i] != target
}

/// A case's target came out at this rank: its first position in the
/// case's ranking by keys, plus one.
pub open spec fn target_ranked(case: EvaluationCase, catalog: Seq<NormalizedWork>, keys: Seq<(u64, u64)>, rank: TargetRank) -> bool {
    &&& rank.spec_work_id() == case.spec_target()
    &&& exists|ranked: Seq<WorkId>| #[trigger] is_ranking(case, catalog, keys, ranked)
        && ranked_at(ranked, case.spec_target(), rank.spec_rank())
}

/// Ranks a case's candidates by key, then by identifier: the result lists
/// the identifiers of the candidates `order[0]`, `order[1]`, … where `order`
/// visits every candidate once, in strictly increasing full key.
pub fn rank_by(case: &EvaluationCase, catalog: &[NormalizedWork], keys: &Vec<(u64, u64)>) -> (ranked: Vec<WorkId>)
    requires
        works_by_id(catalog@),
        keys@.len() == case.spec_candidates().len(),
        forall|p: int| 0 <= p < case.spec_candidates().len() ==> (#[trigger] case.spec_candidates()[p]) < catalog@.len(),
        forall|a: int, b: int| 0 <= a < b < case.spec_candidates().len() ==> (#[trigger] case.spec_candidates()[a]) < (#[trigger] case.spec_candidates()[b]),
    ensures
        ranked@.len() == keys@.len(),
        is_ranking(*case, catalog@, keys@, ranked@),
{
    let candidates = case.candidates();
    let mut keyed: Vec<((u64, u64, u64), (usize, WorkId))> = Vec::new();
    let mut p: usize = 0;
    while p < candidates.len()
        invariant
            candidates@ == case.spec_candidates(),
            keys@.len() == candidates@.len(),
            forall|q: int| 0 <= q < candidates@.len() ==> (#[trigger] candidates@[q]) < catalog@.len(),
            p <= candidates@.len(),
            keyed@.len() == p,
            forall|q: int| 0 <= q < p ==> (#[trigger] keyed@[q]) == (ranking_key(*case, catalog@, keys@, q), (q as usize, catalog@[candidates@[q] as int].spec_id())),
        decreases candidates.len() - p,
    {
        let id = catalog[candidates[p]].id();
        keyed.push(((keys[p].0, keys[p].1, id.get() as u64), (p, id)));
        p = p + 1;
    }
    let ghost keyed_view = keyed@;
    proof {
        assert forall|a: int, b: int| 0 <= a < b < keyed_view.len() implies keyed_view[a].0 != keyed_view[b].0 by {
            let ca = case.spec_candidates()[a] as int;
            let cb = case.spec_candidates()[b] as int;
            assert(catalog@[ca].spec_id().spec_value() < catalog@[cb].spec_id().spec_value());
        }
    }
    let sorted = crate::sort::sort_by_key(keyed);
    let ghost sorted_view = sorted@;
    proof {
        crate::sort::lemma_sorted_distinct_keys(sorted_view, keyed_view);
    }
    let pairs = crate::sort::strip_keys(sorted);
    let mut ranked: Vec<WorkId> = Vec::new();
    let mut i: usize = 0;
    while i < pairs.len()
        invariant
            pairs@ == items_of(sorted_view),
            i <= pairs@.len(),
            ranked@.len() == i,
            forall|x: int| 0 <= x < i ==> #[trigger] ranked@[x] == pairs@[x].1,
        decreases pairs.len() - i,
    {
        ranked.push(pairs[i].1);
        i = i + 1;
    }
    let ghost order = pairs@.map_values(|pair: (usize, WorkId)| pair.0 as int);
    proof {
        assert forall|i: int| 0 <= i < order.len() implies 0 <= #[trigger] order[i] < keys@.len()
            && ranked@[i] == catalog@[case.spec_candidates()[order[i]] as int].spec_id()
            && sorted_view[i].0 == ranking_key(*case, catalog@, keys@, order[i]) by {
            let a = crate::sort::lemma_member_of_permutation(sorted_view, keyed_view, i);
            assert(sorted_view[i] == keyed_view[a]);
        }
        assert forall|i: int, j: int| 0 <= i < j < order.len() implies key_less(
            ranking_key(*case, catalog@, keys@, #[trigger] order[i]),
            ranking_key(*case, catalog@, keys@, #[trigger] order[j]),
        ) by {
            assert(key_less(sorted_view[i].0, sorted_view[j].0));
            assert(0 <= order[i] < keys@.len());
            assert(0 <= order[j] < keys@.len());
        }
        assert forall|i: int, j: int| 0 <= i < order.len() && 0 <= j < order.len() && i != j implies order[i] != order[j] by {
            assert(0 <= order[i] < keys@.len());
            assert(0 <= order[j] < keys@.len());
            if i < j {
                assert(key_less(sorted_view[i].0, sorted_view[j].0));
            } else {
                assert(key_less(sorted_view[j].0, sorted_view[i].0));
            }
        }
        assert(order.no_duplicates());
        assert(is_ranking(*case, catalog@, keys@, ranked@));
    }
    ranked
}

/// The one-based position of a target in a ranking; `None` when the target
/// is absent or its position does not fit a `u32`.
pub fn target_rank(target: WorkId, ranking: &Vec<WorkId>) -> (rank: Option<TargetRank>)
    ensures
        match rank {
            Some(r) => r.spec_work_id() == target && 1 <= r.spec_rank() <= ranking@.len()
                && ranking@[r.spec_rank() - 1] == target
                && forall|i: int| 0 <= i < r.spec_rank() - 1 ==> ranking@[i] != target,
            None => forall|i: int| 0 <= i < ranking@.len() && i < u32::MAX ==> ranking@[i] != target,
        },
{
    let mut i: usize = 0;
    while i < ranking.len()
        invariant
            i <= ranking@.len(),
            forall|k: int| 0 <= k < i ==> ranking@[k] != target,
        decreases ranking.len() - i,
    {
        if ranking[i] == target {
            if i >= u32::MAX as usize {
                return None;
            }
            return Some(TargetRank { work_id: target, rank: (i + 1) as u32 });
        }
        i = i + 1;
    }
    None
}

/// The positions a predicate keeps are increasing catalog positions.
pub proof fn lemma_positions_increasing(works: Seq<NormalizedWork>, ids: Seq<WorkId>, target: WorkId, liked: bool)
    requires
        works.len() <= usize::MAX,
    ensures
        forall|p: int| 0 <= p < positions(works, ids, target, liked).len() ==> (#[trigger] positions(works, ids, target, liked)[p]) < works.len(),
        forall|a: int, b: int| 0 <= a < b < positions(works, ids, target, liked).len()
            ==> (#[trigger] positions(works, ids, target, liked)[a]) < (#[trigger] positions(works, ids, target, liked)[b]),
    decreases works.len(),
{
    if works.len() > 0 {
        let rest = positions(works.drop_last(), ids, target, liked);
        lemma_positions_increasing(works.drop_last(), ids, target, liked);
        let all = positions(works, ids, target, liked);
        assert forall|p: int| 0 <= p < all.len() implies (#[trigger] all[p]) < works.len() by {
            if p < rest.len() {
                assert(all[p] == rest[p]);
            }
        }
        assert forall|a: int, b: int| 0 <= a < b < all.len() implies (#[trigger] all[a]) < (#[trigger] all[b]) by {
            assert(all[a] == rest[a]);
            assert(rest[a] < works.drop_last().len());
            if b < rest.len() {
                assert(all[b] == rest[b]);
            } else {
                assert(keeps(ids, target, liked, works.last().spec_id()));
                assert(all == rest.push((works.len() - 1) as usize));
                assert(all[b] == works.len() - 1);
            }
        }
    }
}

/// The positions a case keeps are exactly those of the works it accepts.
pub proof fn lemma_positions_keep(works: Seq<NormalizedWork>, ids: Seq<WorkId>, target: WorkId, liked: bool)
    requires
        works.len() <= usize::MAX,
    ensures
        forall|p: int| 0 <= p < positions(works, ids, target, liked).len()
            ==> keeps(ids, target, liked, works[#[trigger] positions(works, ids, target, liked)[p] as int].spec_id()),
        forall|i: int| 0 <= i < works.len() && keeps(ids, target, liked, #[trigger] works[i].spec_id())
            ==> positions(works, ids, target, liked).contains(i as usize),
    decreases works.len(),
{
    lemma_positions_increasing(works, ids, target, liked);
    if works.len() > 0 {
        let rest = works.drop_last();
        lemma_positions_keep(rest, ids, target, liked);
        lemma_positions_increasing(rest, ids, target, liked);
        let all = positions(works, ids, target, liked);
        let part = positions(rest, ids, target, liked);
        assert forall|p: int| 0 <= p < all.len() implies keeps(ids, target, liked, works[#[trigger] all[p] as int].spec_id()) by {
            if p < part.len() {
                assert(all[p] == part[p]);
                assert(part[p] < rest.len());
                assert(works[part[p] as int] == rest[part[p] as int]);
            }
        }
        assert forall|i: int| 0 <= i < works.len() && keeps(ids, target, liked, #[trigger] works[i].spec_id()) implies all.contains(i as usize) by {
            if i < works.len() - 1 {
                assert(rest[i] == works[i]);
                assert(part.contains(i as usize));
                let q = choose|q: int| 0 <= q < part.len() && part[q] == i as usize;
                assert(all[q] == part[q]);
            } else {
                assert(all[all.len() - 1] == (works.len() - 1) as usize);
            }
        }
    }
}

/// Hiding a target never lets another rated work into its candidates; the
/// target itself is a candidate whenever the catalog holds it; the history
/// holds the other favourites only.
pub proof fn lemma_case_composition(catalog: Seq<NormalizedWork>, rated: Seq<WorkId>, relevant: Seq<WorkId>, target: WorkId)
    requires
        catalog.len() <= usize::MAX,
    ensures
        forall|p: int| 0 <= p < candidate_positions(catalog, rated, target).len() ==> {
            let id = catalog[#[trigger] candidate_positions(catalog, rated, target)[p] as int].spec_id();
            !rated.contains(id) || id == target
        },
        forall|i: int| 0 <= i < catalog.len() && #[trigger] catalog[i].spec_id() == target
            ==> candidate_positions(catalog, rated, target).contains(i as usize),
        forall|p: int| 0 <= p < liked_positions(catalog, relevant, target).len() ==> {
            let id = catalog[#[trigger] liked_positions(catalog, relevant, target)[p] as int].spec_id();
            relevant.contains(id) && id != target
        },
{
    lemma_positions_keep(catalog, rated, target, false);
    lemma_positions_keep(catalog, relevant, target, true);
    let candidates = candidate_positions(catalog, rated, target);
    let liked = liked_positions(catalog, relevant, target);
    assert forall|p: int| 0 <= p < candidates.len() implies {
        let id = catalog[#[trigger] candidates[p] as int].spec_id();
        !rated.contains(id) || id == target
    } by {
        assert(keeps(rated, target, false, catalog[candidates[p] as int].spec_id()));
    }
    assert forall|i: int| 0 <= i < catalog.len() && #[trigger] catalog[i].spec_id() == target implies candidates.contains(i as usize) by {
        assert(keeps(rated, target, false, catalog[i].spec_id()));
    }
    assert forall|p: int| 0 <= p < liked.len() implies {
        let id = catalog[#[trigger] liked[p] as int].spec_id();
        relevant.contains(id) && id != target
    } by {
        assert(keeps(relevant, target, true, catalog[liked[p] as int].spec_id()));
    }
}

/// Ranks every case by its keys and reads each target's rank: its first
/// position in the case's ranking, plus one; `None` when some target is
/// missing from its own ranking.
pub fn target_ranks(cases: &Vec<EvaluationCase>, catalog: &[NormalizedWork], keys: &Vec<Vec<(u64, u64)>>) -> (ranks: Option<Vec<TargetRank>>)
    requires
        works_by_id(catalog@),
        keys@.len() == cases@.len(),
        forall|k: int| 0 <= k < cases@.len() ==> (#[trigger] keys@[k])@.len() == cases@[k].spec_candidates().len(),
        forall|k: int| 0 <= k < cases@.len() ==> {
            &&& forall|p: int| 0 <= p < (#[trigger] cases@[k]).spec_candidates().len() ==> (#[trigger] cases@[k].spec_candidates()[p]) < catalog@.len()
            &&& forall|a: int, b: int| 0 <= a < b < cases@[k].spec_candidates().len() ==> (#[trigger] cases@[k].spec_candidates()[a]) < (#[trigger] cases@[k].spec_candidates()[b])
        },
    ensures
        match ranks {
            Some(r) => r@.len() == cases@.len()
                && forall|k: int| 0 <= k < r@.len() ==> #[trigger] target_ranked(cases@[k], catalog@, keys@[k]@, r@[k]),
            None => exists|k: int, ranked: Seq<WorkId>| 0 <= k < cases@.len()
                && #[trigger] is_ranking(cases@[k], catalog@, keys@[k]@, ranked)
                && forall|i: int| 0 <= i < ranked.len() && i < u32::MAX ==> ranked[i] != cases@[k].spec_target(),
        },
{
    let mut ranks: Vec<TargetRank> = Vec::new();
    let mut k: usize = 0;
    while k < cases.len()
        invariant
            works_by_id(catalog@),
            keys@.len() == cases@.len(),
            forall|k: int| 0 <= k < cases@.len() ==> (#[trigger] keys@[k])@.len() == cases@[k].spec_candidates().len(),
            forall|k: int| 0 <= k < cases@.len() ==> {
                &&& forall|p: int| 0 <= p < (#[trigger] cases@[k]).spec_candidates().len() ==> (#[trigger] cases@[k].spec_candidates()[p]) < catalog@.len()
                &&& forall|a: int, b: int| 0 <= a < b < cases@[k].spec_candidates().len() ==> (#[trigger] cases@[k].spec_candidates()[a]) < (#[trigger] cases@[k].spec_candidates()[b])
            },
            k <= cases@.len(),
            ranks@.len() == k,
            forall|x: int| 0 <= x < k ==> #[trigger] target_ranked(cases@[x], catalog@, keys@[x]@, ranks@[x]),
        decreases cases.len() - k,
    {
        let case = &cases[k];
        let ranking = rank_by(case, catalog, &keys[k]);
        let r = match target_rank(case.target(), &ranking) {
            Some(r) => r,
            None => {
                assert(is_ranking(cases@[k as int], catalog@, keys@[k as int]@, ranking@));
                return None;
            },
        };
        assert(ranked_at(ranking@, cases@[k as int].spec_target(), r.spec_rank()));
        assert(is_ranking(cases@[k as int], catalog@, keys@[k as int]@, ranking@));
        let ghost prev = ranks@;
        ranks.push(r);
        assert forall|x: int| 0 <= x < k + 1 implies #[trigger] target_ranked(cases@[x], catalog@, keys@[x]@, ranks@[x]) by {
            if x == k {
                assert(ranks@[x] == r);
            } else {
                assert(ranks@[x] == prev[x]);
                assert(target_ranked(cases@[x], catalog@, keys@[x]@, prev[x]));
            }
        }
        k = k + 1;
    }
    Some(ranks)
}

/// The integer statistics of a set of target ranks.
#[derive(Debug, Clone, Copy, PartialEq, Eq)]
pub struct RankSummary {
    /// The number of targets.
    pub count: usize,
    /// Twice the median rank (the sum of the two middle ranks when the count is even).
    pub median_twice: u64,
    /// The number of targets ranked at 10 or better.
    pub within_10: usize,
    /// The number of targets ranked at 20 or better.
    pub within_20: usize,
}

/// The number of ranks at or below a cutoff.
pub open spec fn count_within(ranks: Seq<TargetRank>, cutoff: u32) -> nat
    decreases ranks.len(),
{
    if ranks.len() == 0 {
        0
    } else {
        count_within(ranks.drop_last(), cutoff) + if ranks.last().spec_rank() <= cutoff { 1nat } else { 0nat }
    }
}

/// The ranks of the targets.
pub open spec fn rank_values(ranks: Seq<TargetRank>) -> Seq<u32> {
    ranks.map_values(|r: TargetRank| r.spec_rank())
}

/// Twice the median of a non-decreasing sequence.
pub open spec fn median_twice_of(sorted: Seq<u32>) -> int {
    let m: int = (sorted.len() / 2) as int;
    if sorted.len() % 2 == 0 { sorted[m - 1] + sorted[m] } else { 2 * sorted[m] }
}

fn count_ranks_within(ranks: &[TargetRank], cutoff: u32) -> (count: usize)
    ensures
        count == count_within(ranks@, cutoff),
{
    let mut count: usize = 0;
    let mut i: usize = 0;
    while i < ranks.len()
        invariant
            i <= ranks@.len(),
            count == count_within(ranks@.take(i as int), cutoff),
            count <= i,
        decreases ranks.len() - i,
    {
        assert(ranks@.take(i + 1).drop_last() =~= ranks@.take(i as int));
        if ranks[i].rank() <= cutoff {
            count = count + 1;
        }
        i = i + 1;
    }
    assert(ranks@.take(ranks@.len() as int) =~= ranks@);
    count
}

/// The median and the cutoff counts of the target ranks, exactly.
pub fn rank_summary(ranks: &[TargetRank]) -> (summary: RankSummary)
    requires
        ranks@.len() > 0,
    ensures
        summary.count == ranks@.len(),
        summary.within_10 == count_within(ranks@, 10),
        summary.within_20 == count_within(ranks@, 20),
        exists|sorted: Seq<u32>| {
            &&& sorted.to_multiset() =~= rank_values(ranks@).to_multiset()
            &&& (forall|i: int, j: int| 0 <= i < j < sorted.len() ==> #[trigger] sorted[i] <= #[trigger] sorted[j])
            &&& summary.median_twice == median_twice_of(sorted)
        },
{
    let mut keyed: Vec<((u64, u64, u64), u32)> = Vec::new();
    let mut i: usize = 0;
    while i < ranks.len()
        invariant
            i <= ranks@.len(),
            keyed@.len() == i,
            forall|x: int| 0 <= x < i ==> #[trigger] keyed@[x] == ((ranks@[x].spec_rank() as u64, 0u64, 0u64), ranks@[x].spec_rank()),
        decreases ranks.len() - i,
    {
        let r = ranks[i].rank();
        keyed.push(((r as u64, 0, 0), r));
        i = i + 1;
    }
    let ghost keyed_view = keyed@;
    assert(items_of(keyed_view) =~= rank_values(ranks@));
    let sorted_pairs = crate::sort::sort_by_key(keyed);
    let ghost sorted_view = sorted_pairs@;
    proof {
        crate::sort::lemma_map_multiset(sorted_view, keyed_view, |p: ((u64, u64, u64), u32)| p.1);
    }
    let sorted = crate::sort::strip_keys(sorted_pairs);
    proof {
        assert forall|i: int, j: int| 0 <= i < j < sorted@.len() implies #[trigger] sorted@[i] <= #[trigger] sorted@[j] by {
            assert(!key_less(sorted_view[j].0, sorted_view[i].0));
            let a = crate::sort::lemma_member_of_permutation(sorted_view, keyed_view, i);
            let b = crate::sort::lemma_member_of_permutation(sorted_view, keyed_view, j);
        }
    }
    let m = sorted.len() / 2;
    let median_twice: u64 = if sorted.len() % 2 == 0 {
        sorted[m - 1] as u64 + sorted[m] as u64
    } else {
        2 * (sorted[m] as u64)
    };
    proof {
        let sv = sorted@;
        assert(median_twice == median_twice_of(sv));
        assert(sv.to_multiset() =~= rank_values(ranks@).to_multiset());
    }
    RankSummary {
        count: ranks.len(),
        median_twice,
        within_10: count_ranks_within(ranks, 10),
        within_20: count_ranks_within(ranks, 20),
    }
}

/// The message of an evaluation that cannot be made.
pub open spec fn evaluation_message(e: EvaluationError) -> Seq<char> {
    match e {
        EvaluationError::NoRelevantRatings =>
            "baseline evaluation requires at least one rating"@,
    }
}

impl EvaluationError {
    /// The message of the failure.
    pub fn message(&self) -> (text: String)
        ensures
            text@ == evaluation_message(*self),
    {
        match self {
            EvaluationError::NoRelevantRatings => String::from_str(
                "baseline evaluation requires at least one rating",
            ),
        }
    }
}

} // verus!
