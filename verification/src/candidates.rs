//! Cheap retrieval ahead of scoring: each catalog work is either kept or
//! counted against the first filter that eliminates it.

use vstd::prelude::*;
use vstd::multiset::Multiset;
use crate::domain::{
    NormalizedWork, WorkId, WorkFormat, ReleaseYear, Rating, RatingRecord, WatchEvent,
    WorkCore, WorkFacts, event_work, format_rank, format_rank_of,
};
use crate::import::{OfflineDataset, works_by_id};
use crate::ieee::{less_than, total_order_key};
use crate::scoring::RecommendationEngine;
use crate::sort::{key_less, keys_sorted, items_of};
use crate::text::{decimal_of, decimal_u64};

verus! {

broadcast use vstd::seq_lib::group_to_multiset_ensures;

/// The filter that eliminates a work; the first one that applies wins.
#[derive(Debug, Clone, Copy, PartialEq, Eq, Structural, Hash)]
pub enum CandidateFilter {
    Seen,
    Blacklisted,
    Format,
    ReleaseYear,
    GlobalScore,
    Availability,
    Prerequisites,
    Limit,
}

/// A validation error of a candidate request.
#[derive(Debug, Clone, PartialEq, Eq)]
pub enum CandidateError {
    InvalidConfiguration { field: &'static str, reason: &'static str },
}

/// The settings of a candidate request, as plain values.
pub ghost struct RequestView {
    pub blacklisted: Seq<WorkId>,
    pub formats: Seq<WorkFormat>,
    pub minimum_year: Option<ReleaseYear>,
    pub maximum_year: Option<ReleaseYear>,
    pub minimum_global_score: Option<Rating>,
    pub require_available: bool,
    pub require_prerequisites: bool,
    pub limit: nat,
}

/// Validated settings of the cheap retrieval.
#[derive(Debug, Clone, PartialEq)]
pub struct CandidateRequest {
    blacklisted: Vec<WorkId>,
    formats: Vec<WorkFormat>,
    minimum_year: Option<ReleaseYear>,
    maximum_year: Option<ReleaseYear>,
    minimum_global_score: Option<Rating>,
    require_available: bool,
    require_prerequisites: bool,
    limit: usize,
}

impl View for CandidateRequest {
    type V = RequestView;

    closed spec fn view(&self) -> RequestView {
        RequestView {
            blacklisted: self.blacklisted@,
            formats: self.formats@,
            minimum_year: self.minimum_year,
            maximum_year: self.maximum_year,
            minimum_global_score: self.minimum_global_score,
            require_available: self.require_available,
            require_prerequisites: self.require_prerequisites,
            limit: self.limit as nat,
        }
    }
}

/// Identifiers in strictly increasing order.
pub open spec fn ids_increasing(ids: Seq<WorkId>) -> bool {
    forall|a: int, b: int| 0 <= a < b < ids.len() ==> (#[trigger] ids[a]).spec_value() < (#[trigger] ids[b]).spec_value()
}

/// Formats in strictly increasing declaration order.
pub open spec fn formats_increasing(formats: Seq<WorkFormat>) -> bool {
    forall|a: int, b: int| 0 <= a < b < formats.len() ==> format_rank(#[trigger] formats[a]) < format_rank(#[trigger] formats[b])
}

/// The outcome of validating a request, checks taken in order.
pub open spec fn request_check(
    blacklisted: Seq<WorkId>,
    formats: Seq<WorkFormat>,
    minimum_year: Option<ReleaseYear>,
    maximum_year: Option<ReleaseYear>,
    limit: nat,
) -> Result<(), CandidateError> {
    if limit == 0 {
        Err(CandidateError::InvalidConfiguration { field: "limit", reason: "must be greater than zero" })
    } else if !blacklisted.no_duplicates() {
        Err(CandidateError::InvalidConfiguration { field: "blacklisted", reason: "must not contain duplicates" })
    } else if !formats.no_duplicates() {
        Err(CandidateError::InvalidConfiguration { field: "formats", reason: "must not contain duplicates" })
    } else if minimum_year matches Some(low) && maximum_year matches Some(high) && low.spec_value() > high.spec_value() {
        Err(CandidateError::InvalidConfiguration { field: "release_year", reason: "minimum_year must not exceed maximum_year" })
    } else {
        Ok(())
    }
}

/// Refuses sorted values in which two neighbours are equal.
fn reject_duplicates(field: &'static str, values: &Vec<u64>) -> (result: Result<(), CandidateError>)
    ensures
        result is Ok <==> forall|i: int| 0 <= i < values@.len() - 1 ==> #[trigger] values@[i] != values@[i + 1],
        result is Err ==> result == Err::<(), CandidateError>(
            CandidateError::InvalidConfiguration { field, reason: "must not contain duplicates" },
        ),
{
    let mut i: usize = 0;
    while i < values.len()
        invariant
            i <= values@.len(),
            forall|k: int| 0 <= k < i && k < values@.len() - 1 ==> #[trigger] values@[k] != values@[k + 1],
        decreases values.len() - i,
    {
        if i + 1 < values.len() && values[i] == values[i + 1] {
            return Err(CandidateError::InvalidConfiguration { field, reason: "must not contain duplicates" });
        }
        i = i + 1;
    }
    Ok(())
}

/// A sequence ordered by a key, without a repeat, holds no duplicate.
proof fn lemma_sorted_keys_repeat<T>(keys: Seq<u64>, items: Seq<T>, key: spec_fn(T) -> u64)
    requires
        keys.len() == items.len(),
        forall|i: int| 0 <= i < items.len() ==> #[trigger] keys[i] == key(items[i]),
        forall|i: int, j: int| 0 <= i < j < keys.len() ==> keys[i] <= keys[j],
        forall|a: T, b: T| #[trigger] key(a) == #[trigger] key(b) ==> a == b,
    ensures
        items.no_duplicates() <==> forall|i: int| 0 <= i < keys.len() - 1 ==> #[trigger] keys[i] != keys[i + 1],
{
    if items.no_duplicates() {
        assert forall|i: int| 0 <= i < keys.len() - 1 implies #[trigger] keys[i] != keys[i + 1] by {
            assert(items[i] != items[i + 1]);
        }
    }
    if forall|i: int| 0 <= i < keys.len() - 1 ==> #[trigger] keys[i] != keys[i + 1] {
        assert forall|i: int, j: int| 0 <= i < items.len() && 0 <= j < items.len() && i != j implies items[i] != items[j] by {
            let (a, b) = if i < j { (i, j) } else { (j, i) };
            assert(keys[a] != keys[a + 1]);
            assert(keys[a] < keys[a + 1]);
            assert(keys[a + 1] <= keys[b]);
        }
    }
}

fn sort_ids(ids: Vec<WorkId>) -> (sorted: Vec<WorkId>)
    ensures
        sorted@.to_multiset() =~= ids@.to_multiset(),
        sorted@.len() == ids@.len(),
        forall|i: int, j: int| 0 <= i < j < sorted@.len() ==> (#[trigger] sorted@[i]).spec_value() <= (#[trigger] sorted@[j]).spec_value(),
{
    let mut keyed: Vec<((u64, u64, u64), WorkId)> = Vec::new();
    let mut i: usize = 0;
    while i < ids.len()
        invariant
            i <= ids@.len(),
            keyed@.len() == i,
            forall|x: int| 0 <= x < i ==> #[trigger] keyed@[x] == ((ids@[x].spec_value() as u64, 0u64, 0u64), ids@[x]),
        decreases ids.len() - i,
    {
        keyed.push(((ids[i].get() as u64, 0, 0), ids[i]));
        i = i + 1;
    }
    let ghost keyed_view = keyed@;
    assert(items_of(keyed_view) =~= ids@);
    let sorted_pairs = crate::sort::sort_by_key(keyed);
    let ghost sorted_view = sorted_pairs@;
    proof {
        crate::sort::lemma_map_multiset(sorted_view, keyed_view, |p: ((u64, u64, u64), WorkId)| p.1);
    }
    let sorted = crate::sort::strip_keys(sorted_pairs);
    proof {
        assert forall|i: int, j: int| 0 <= i < j < sorted@.len() implies (#[trigger] sorted@[i]).spec_value() <= (#[trigger] sorted@[j]).spec_value() by {
            assert(!key_less(sorted_view[j].0, sorted_view[i].0));
            let a = crate::sort::lemma_member_of_permutation(sorted_view, keyed_view, i);
            let b = crate::sort::lemma_member_of_permutation(sorted_view, keyed_view, j);
        }
    }
    sorted
}

fn sort_formats(formats: Vec<WorkFormat>) -> (sorted: Vec<WorkFormat>)
    ensures
        sorted@.to_multiset() =~= formats@.to_multiset(),
        sorted@.len() == formats@.len(),
        forall|i: int, j: int| 0 <= i < j < sorted@.len() ==> format_rank(#[trigger] sorted@[i]) <= format_rank(#[trigger] sorted@[j]),
{
    let mut keyed: Vec<((u64, u64, u64), WorkFormat)> = Vec::new();
    let mut i: usize = 0;
    while i < formats.len()
        invariant
            i <= formats@.len(),
            keyed@.len() == i,
            forall|x: int| 0 <= x < i ==> #[trigger] keyed@[x] == ((format_rank(formats@[x]), 0u64, 0u64), formats@[x]),
        decreases formats.len() - i,
    {
        keyed.push(((format_rank_of(formats[i]), 0, 0), formats[i]));
        i = i + 1;
    }
    let ghost keyed_view = keyed@;
    assert(items_of(keyed_view) =~= formats@);
    let sorted_pairs = crate::sort::sort_by_key(keyed);
    let ghost sorted_view = sorted_pairs@;
    proof {
        crate::sort::lemma_map_multiset(sorted_view, keyed_view, |p: ((u64, u64, u64), WorkFormat)| p.1);
    }
    let sorted = crate::sort::strip_keys(sorted_pairs);
    proof {
        assert forall|i: int, j: int| 0 <= i < j < sorted@.len() implies format_rank(#[trigger] sorted@[i]) <= format_rank(#[trigger] sorted@[j]) by {
            assert(!key_less(sorted_view[j].0, sorted_view[i].0));
            let a = crate::sort::lemma_member_of_permutation(sorted_view, keyed_view, i);
            let b = crate::sort::lemma_member_of_permutation(sorted_view, keyed_view, j);
        }
    }
    sorted
}

/// Permutations hold duplicates alike.
proof fn lemma_permutation_duplicates<T>(a: Seq<T>, b: Seq<T>)
    requires
        a.to_multiset() =~= b.to_multiset(),
    ensures
        a.no_duplicates() <==> b.no_duplicates(),
{
    if a.no_duplicates() {
        a.lemma_multiset_has_no_duplicates();
        b.lemma_multiset_has_no_duplicates_conv();
    }
    if b.no_duplicates() {
        b.lemma_multiset_has_no_duplicates();
        a.lemma_multiset_has_no_duplicates_conv();
    }
}

impl CandidateRequest {
    /// Validates a request: the limit must not be zero, neither the
    /// blacklist nor the formats may repeat a value, and the minimum year may
    /// not exceed the maximum year. The blacklist is kept by identifier and
    /// the formats in declaration order.
    pub fn new(
        blacklisted: Vec<WorkId>,
        formats: Vec<WorkFormat>,
        minimum_year: Option<ReleaseYear>,
        maximum_year: Option<ReleaseYear>,
        minimum_global_score: Option<Rating>,
        require_available: bool,
        require_prerequisites: bool,
        limit: usize,
    ) -> (result: Result<CandidateRequest, CandidateError>)
        ensures
            match request_check(blacklisted@, formats@, minimum_year, maximum_year, limit as nat) {
                Err(e) => result == Err::<CandidateRequest, CandidateError>(e),
                Ok(_) => result matches Ok(r)
                    && r@.blacklisted.to_multiset() =~= blacklisted@.to_multiset()
                    && ids_increasing(r@.blacklisted)
                    && r@.formats.to_multiset() =~= formats@.to_multiset()
                    && formats_increasing(r@.formats)
                    && r@.minimum_year == minimum_year
                    && r@.maximum_year == maximum_year
                    && r@.minimum_global_score == minimum_global_score
                    && r@.require_available == require_available
                    && r@.require_prerequisites == require_prerequisites
                    && r@.limit == limit,
            },
    {
        if limit == 0 {
            return Err(CandidateError::InvalidConfiguration { field: "limit", reason: "must be greater than zero" });
        }
        let ghost given_ids = blacklisted@;
        let blacklisted = sort_ids(blacklisted);
        let mut id_keys: Vec<u64> = Vec::new();
        let mut i: usize = 0;
        while i < blacklisted.len()
            invariant
                i <= blacklisted@.len(),
                id_keys@.len() == i,
                forall|x: int| 0 <= x < i ==> #[trigger] id_keys@[x] == blacklisted@[x].spec_value() as u64,
            decreases blacklisted.len() - i,
        {
            id_keys.push(blacklisted[i].get() as u64);
            i = i + 1;
        }
        proof {
            let key = |w: WorkId| w.spec_value() as u64;
            assert forall|a: WorkId, b: WorkId| #[trigger] key(a) == #[trigger] key(b) implies a == b by {
                WorkId::lemma_value_injective(a, b);
            }
            lemma_sorted_keys_repeat(id_keys@, blacklisted@, key);
            lemma_permutation_duplicates(blacklisted@, given_ids);
        }
        reject_duplicates("blacklisted", &id_keys)?;
        let ghost given_formats = formats@;
        let formats = sort_formats(formats);
        let mut format_keys: Vec<u64> = Vec::new();
        let mut f: usize = 0;
        while f < formats.len()
            invariant
                f <= formats@.len(),
                format_keys@.len() == f,
                forall|x: int| 0 <= x < f ==> #[trigger] format_keys@[x] == format_rank(formats@[x]),
            decreases formats.len() - f,
        {
            format_keys.push(format_rank_of(formats[f]));
            f = f + 1;
        }
        proof {
            let key = |w: WorkFormat| format_rank(w);
            assert forall|a: WorkFormat, b: WorkFormat| #[trigger] key(a) == #[trigger] key(b) implies a == b by {
                crate::domain::lemma_format_rank_injective(a, b);
            }
            lemma_sorted_keys_repeat(format_keys@, formats@, key);
            lemma_permutation_duplicates(formats@, given_formats);
        }
        reject_duplicates("formats", &format_keys)?;
        if let (Some(low), Some(high)) = (minimum_year, maximum_year) {
            if low.get() > high.get() {
                return Err(CandidateError::InvalidConfiguration {
                    field: "release_year",
                    reason: "minimum_year must not exceed maximum_year",
                });
            }
        }
        proof {
            assert forall|a: int, b: int| 0 <= a < b < blacklisted@.len() implies (#[trigger] blacklisted@[a]).spec_value() < (#[trigger] blacklisted@[b]).spec_value() by {
                assert(blacklisted@[a] != blacklisted@[b]);
                WorkId::lemma_value_injective(blacklisted@[a], blacklisted@[b]);
            }
            assert forall|a: int, b: int| 0 <= a < b < formats@.len() implies format_rank(#[trigger] formats@[a]) < format_rank(#[trigger] formats@[b]) by {
                assert(formats@[a] != formats@[b]);
                crate::domain::lemma_format_rank_injective(formats@[a], formats@[b]);
            }
        }
        Ok(CandidateRequest {
            blacklisted,
            formats,
            minimum_year,
            maximum_year,
            minimum_global_score,
            require_available,
            require_prerequisites,
            limit,
        })
    }

    /// The blacklisted works, by identifier.
    pub fn blacklisted(&self) -> (ids: &[WorkId])
        ensures
            ids@ == self@.blacklisted,
    {
        self.blacklisted.as_slice()
    }

    /// The accepted formats; none means every format.
    pub fn formats(&self) -> (formats: &[WorkFormat])
        ensures
            formats@ == self@.formats,
    {
        self.formats.as_slice()
    }

    /// The earliest accepted release year.
    pub fn minimum_year(&self) -> (year: Option<ReleaseYear>)
        ensures
            year == self@.minimum_year,
    {
        self.minimum_year
    }

    /// The latest accepted release year.
    pub fn maximum_year(&self) -> (year: Option<ReleaseYear>)
        ensures
            year == self@.maximum_year,
    {
        self.maximum_year
    }

    /// The lowest accepted AniList score.
    pub fn minimum_global_score(&self) -> (score: Option<Rating>)
        ensures
            score == self@.minimum_global_score,
    {
        self.minimum_global_score
    }

    /// Whether unavailable works are eliminated.
    pub fn require_available(&self) -> (required: bool)
        ensures
            required == self@.require_available,
    {
        self.require_available
    }

    /// Whether works whose prerequisites are unseen are eliminated.
    pub fn require_prerequisites(&self) -> (required: bool)
        ensures
            required == self@.require_prerequisites,
    {
        self.require_prerequisites
    }

    /// The largest number of candidates handed to the scorer.
    pub fn limit(&self) -> (limit: usize)
        ensures
            limit == self@.limit,
    {
        self.limit
    }
}

impl Default for CandidateRequest {
    /// The V1 request: no blacklist, every format, no year or score bound,
    /// availability and prerequisites required, at most 100 candidates.
    fn default() -> (request: Self)
        ensures
            request@.blacklisted.len() == 0,
            request@.formats.len() == 0,
            request@.minimum_year is None,
            request@.maximum_year is None,
            request@.minimum_global_score is None,
            request@.require_available,
            request@.require_prerequisites,
            request@.limit == 100,
    {
        CandidateRequest {
            blacklisted: Vec::new(),
            formats: Vec::new(),
            minimum_year: None,
            maximum_year: None,
            minimum_global_score: None,
            require_available: true,
            require_prerequisites: true,
            limit: 100,
        }
    }
}

/// Stable counters of the filtering pipeline.
#[derive(Debug, Clone, Copy, PartialEq, Eq)]
pub struct CandidateReport {
    catalog_count: usize,
    accepted_count: usize,
    seen: usize,
    blacklisted: usize,
    format: usize,
    release_year: usize,
    global_score: usize,
    availability: usize,
    prerequisites: usize,
    limit: usize,
}

impl CandidateReport {
    /// The size of the catalog.
    pub closed spec fn spec_catalog_count(self) -> nat {
        self.catalog_count as nat
    }

    /// The number of candidates kept.
    pub closed spec fn spec_accepted_count(self) -> nat {
        self.accepted_count as nat
    }

    /// The number of works a filter eliminated.
    pub closed spec fn spec_eliminated(self, filter: CandidateFilter) -> nat {
        match filter {
            CandidateFilter::Seen => self.seen as nat,
            CandidateFilter::Blacklisted => self.blacklisted as nat,
            CandidateFilter::Format => self.format as nat,
            CandidateFilter::ReleaseYear => self.release_year as nat,
            CandidateFilter::GlobalScore => self.global_score as nat,
            CandidateFilter::Availability => self.availability as nat,
            CandidateFilter::Prerequisites => self.prerequisites as nat,
            CandidateFilter::Limit => self.limit as nat,
        }
    }

    /// The size of the catalog.
    pub fn catalog_count(&self) -> (count: usize)
        ensures
            count == self.spec_catalog_count(),
    {
        self.catalog_count
    }

    /// The number of candidates kept.
    pub fn accepted_count(&self) -> (count: usize)
        ensures
            count == self.spec_accepted_count(),
    {
        self.accepted_count
    }

    /// The number of works a filter eliminated.
    pub fn eliminated_by(&self, filter: CandidateFilter) -> (count: usize)
        ensures
            count == self.spec_eliminated(filter),
    {
        match filter {
            CandidateFilter::Seen => self.seen,
            CandidateFilter::Blacklisted => self.blacklisted,
            CandidateFilter::Format => self.format,
            CandidateFilter::ReleaseYear => self.release_year,
            CandidateFilter::GlobalScore => self.global_score,
            CandidateFilter::Availability => self.availability,
            CandidateFilter::Prerequisites => self.prerequisites,
            CandidateFilter::Limit => self.limit,
        }
    }

    fn increment(&mut self, filter: CandidateFilter)
        requires
            old(self).spec_eliminated(filter) < usize::MAX,
        ensures
            final(self).spec_eliminated(filter) == old(self).spec_eliminated(filter) + 1,
            forall|other: CandidateFilter| other != filter ==> final(self).spec_eliminated(other) == old(self).spec_eliminated(other),
            final(self).spec_catalog_count() == old(self).spec_catalog_count(),
            final(self).spec_accepted_count() == old(self).spec_accepted_count(),
    {
        match filter {
            CandidateFilter::Seen => self.seen = self.seen + 1,
            CandidateFilter::Blacklisted => self.blacklisted = self.blacklisted + 1,
            CandidateFilter::Format => self.format = self.format + 1,
            CandidateFilter::ReleaseYear => self.release_year = self.release_year + 1,
            CandidateFilter::GlobalScore => self.global_score = self.global_score + 1,
            CandidateFilter::Availability => self.availability = self.availability + 1,
            CandidateFilter::Prerequisites => self.prerequisites = self.prerequisites + 1,
            CandidateFilter::Limit => self.limit = self.limit + 1,
        }
    }
}

/// The admissible works handed to the scorer, with the report of their filtering.
#[derive(Debug, PartialEq)]
pub struct CandidateSet {
    works: Vec<NormalizedWork>,
    report: CandidateReport,
}

impl CandidateSet {
    /// The candidates, in pre-ranking order.
    pub closed spec fn spec_works(self) -> Seq<NormalizedWork> {
        self.works@
    }

    /// The filtering report.
    pub closed spec fn spec_report(self) -> CandidateReport {
        self.report
    }

    /// The candidates, in pre-ranking order.
    pub fn works(&self) -> (works: &[NormalizedWork])
        ensures
            works@ == self.spec_works(),
    {
        self.works.as_slice()
    }

    /// The filtering report.
    pub fn report(&self) -> (report: &CandidateReport)
        ensures
            *report == self.spec_report(),
    {
        &self.report
    }
}

/// The works already rated or watched: the rated ones, then those of the events.
pub open spec fn seen_ids(dataset: OfflineDataset) -> Seq<WorkId> {
    dataset.spec_ratings().map_values(|r: RatingRecord| r.spec_work_id())
        + dataset.spec_events().map_values(|e: WatchEvent| event_work(e))
}

/// A work counts as seen exactly when a rating or a viewing event is about it.
pub proof fn lemma_seen_works(dataset: OfflineDataset, id: WorkId)
    ensures
        seen_ids(dataset).contains(id) <==> {
            ||| exists|r: int| 0 <= r < dataset.spec_ratings().len() && (#[trigger] dataset.spec_ratings()[r]).spec_work_id() == id
            ||| exists|e: int| 0 <= e < dataset.spec_events().len() && event_work(#[trigger] dataset.spec_events()[e]) == id
        },
{
    let rated = dataset.spec_ratings().map_values(|r: RatingRecord| r.spec_work_id());
    let watched = dataset.spec_events().map_values(|e: WatchEvent| event_work(e));
    let seen = seen_ids(dataset);
    assert(seen == rated + watched);
    if seen.contains(id) {
        let i = choose|i: int| 0 <= i < seen.len() && seen[i] == id;
        if i < rated.len() {
            assert(dataset.spec_ratings()[i].spec_work_id() == id);
        } else {
            assert(event_work(dataset.spec_events()[i - rated.len()]) == id);
        }
    }
    if exists|r: int| 0 <= r < dataset.spec_ratings().len() && (#[trigger] dataset.spec_ratings()[r]).spec_work_id() == id {
        let r = choose|r: int| 0 <= r < dataset.spec_ratings().len() && (#[trigger] dataset.spec_ratings()[r]).spec_work_id() == id;
        assert(seen[r] == id);
    }
    if exists|e: int| 0 <= e < dataset.spec_events().len() && event_work(#[trigger] dataset.spec_events()[e]) == id {
        let e = choose|e: int| 0 <= e < dataset.spec_events().len() && event_work(#[trigger] dataset.spec_events()[e]) == id;
        assert(seen[rated.len() + e] == id);
    }
}

/// A release year inside the requested bounds.
pub open spec fn year_allowed(year: ReleaseYear, request: RequestView) -> bool {
    &&& !(request.minimum_year matches Some(low) && year.spec_value() < low.spec_value())
    &&& !(request.maximum_year matches Some(high) && year.spec_value() > high.spec_value())
}

/// The first filter that eliminates a work, in the documented order.
pub open spec fn rejection(work: NormalizedWork, request: RequestView, dataset: OfflineDataset) -> Option<CandidateFilter> {
    let core: WorkCore = work.spec_core();
    let facts: WorkFacts = work.spec_facts();
    let seen = seen_ids(dataset);
    if seen.contains(core.id) {
        Some(CandidateFilter::Seen)
    } else if request.blacklisted.contains(core.id) {
        Some(CandidateFilter::Blacklisted)
    } else if request.formats.len() > 0 && !(facts.format matches Some(f) && request.formats.contains(f)) {
        Some(CandidateFilter::Format)
    } else if (request.minimum_year is Some || request.maximum_year is Some)
        && !(facts.release_year matches Some(y) && year_allowed(y, request)) {
        Some(CandidateFilter::ReleaseYear)
    } else if request.minimum_global_score matches Some(low)
        && !(core.global_score matches Some(s) && !less_than(s.spec_bits(), low.spec_bits())) {
        Some(CandidateFilter::GlobalScore)
    } else if request.require_available && !facts.available {
        Some(CandidateFilter::Availability)
    } else if request.require_prerequisites
        && exists|p: int| 0 <= p < facts.prerequisites.len() && !seen.contains(#[trigger] facts.prerequisites[p]) {
        Some(CandidateFilter::Prerequisites)
    } else {
        None
    }
}

/// The works no filter eliminates, in catalog order.
pub open spec fn survivors(works: Seq<NormalizedWork>, request: RequestView, dataset: OfflineDataset) -> Seq<NormalizedWork>
    decreases works.len(),
{
    if works.len() == 0 {
        Seq::empty()
    } else {
        let kept = survivors(works.drop_last(), request, dataset);
        if rejection(works.last(), request, dataset) is None {
            kept.push(works.last())
        } else {
            kept
        }
    }
}

/// The number of works a filter eliminates first.
pub open spec fn eliminated(works: Seq<NormalizedWork>, request: RequestView, dataset: OfflineDataset, filter: CandidateFilter) -> nat
    decreases works.len(),
{
    if works.len() == 0 {
        0
    } else {
        eliminated(works.drop_last(), request, dataset, filter)
            + if rejection(works.last(), request, dataset) == Some(filter) { 1nat } else { 0nat }
    }
}

/// The pre-ranking key: works with an AniList score first, by score from
/// the highest (as `f64::total_cmp` orders them), then by identifier.
pub open spec fn candidate_key(work: NormalizedWork) -> (u64, u64, u64) {
    match work.spec_core().global_score {
        Some(s) => (0u64, (u64::MAX - total_order_key(s.spec_bits())) as u64, work.spec_id().spec_value() as u64),
        None => (1u64, 0u64, work.spec_id().spec_value() as u64),
    }
}

/// Works in strictly increasing pre-ranking key.
pub open spec fn pre_ranked(works: Seq<NormalizedWork>) -> bool {
    forall|i: int, j: int| 0 <= i < j < works.len() ==> key_less(candidate_key(#[trigger] works[i]), candidate_key(#[trigger] works[j]))
}

/// The number of works every filter, the limit included, eliminated.
pub open spec fn total_eliminated(r: CandidateReport) -> nat {
    r.spec_eliminated(CandidateFilter::Seen) + r.spec_eliminated(CandidateFilter::Blacklisted)
        + r.spec_eliminated(CandidateFilter::Format) + r.spec_eliminated(CandidateFilter::ReleaseYear)
        + r.spec_eliminated(CandidateFilter::GlobalScore) + r.spec_eliminated(CandidateFilter::Availability)
        + r.spec_eliminated(CandidateFilter::Prerequisites) + r.spec_eliminated(CandidateFilter::Limit)
}

/// The number of works the seven filters eliminate.
pub open spec fn filtered_out(works: Seq<NormalizedWork>, request: RequestView, dataset: OfflineDataset) -> nat {
    eliminated(works, request, dataset, CandidateFilter::Seen) + eliminated(works, request, dataset, CandidateFilter::Blacklisted)
        + eliminated(works, request, dataset, CandidateFilter::Format) + eliminated(works, request, dataset, CandidateFilter::ReleaseYear)
        + eliminated(works, request, dataset, CandidateFilter::GlobalScore) + eliminated(works, request, dataset, CandidateFilter::Availability)
        + eliminated(works, request, dataset, CandidateFilter::Prerequisites)
}

/// Every work is either kept or eliminated by exactly one of the seven
/// filters: the survivors and the eliminated works add up to the catalog,
/// and no work is counted against the limit before the limit applies.
pub proof fn lemma_filters_partition(works: Seq<NormalizedWork>, request: RequestView, dataset: OfflineDataset)
    ensures
        survivors(works, request, dataset).len() + filtered_out(works, request, dataset) == works.len(),
        eliminated(works, request, dataset, CandidateFilter::Limit) == 0,
    decreases works.len(),
{
    if works.len() > 0 {
        lemma_filters_partition(works.drop_last(), request, dataset);
    }
}

/// Every survivor passes every filter, and is a work of the catalog.
pub proof fn lemma_survivors_pass_every_filter(works: Seq<NormalizedWork>, request: RequestView, dataset: OfflineDataset)
    ensures
        forall|i: int| 0 <= i < survivors(works, request, dataset).len()
            ==> #[trigger] rejection(survivors(works, request, dataset)[i], request, dataset) is None
                && works.contains(survivors(works, request, dataset)[i]),
    decreases works.len(),
{
    if works.len() > 0 {
        let rest = works.drop_last();
        lemma_survivors_pass_every_filter(rest, request, dataset);
        let all = survivors(works, request, dataset);
        let part = survivors(rest, request, dataset);
        assert forall|i: int| 0 <= i < all.len() implies #[trigger] rejection(all[i], request, dataset) is None
            && works.contains(all[i]) by {
            if i < part.len() {
                assert(all[i] == part[i]);
                assert(rest.contains(part[i]));
                let k = choose|k: int| 0 <= k < rest.len() && rest[k] == part[i];
                assert(works[k] == part[i]);
            } else {
                assert(all[i] == works[works.len() - 1]);
            }
        }
    }
}

/// What each work states.
pub open spec fn work_views(works: Seq<NormalizedWork>) -> Seq<(WorkCore, WorkFacts)> {
    works.map_values(|w: NormalizedWork| w@)
}

fn contains_id(ids: &Vec<WorkId>, id: WorkId) -> (found: bool)
    ensures
        found == ids@.contains(id),
{
    let mut i: usize = 0;
    while i < ids.len()
        invariant
            i <= ids@.len(),
            forall|k: int| 0 <= k < i ==> ids@[k] != id,
        decreases ids.len() - i,
    {
        if ids[i] == id {
            assert(ids@[i as int] == id);
            return true;
        }
        i = i + 1;
    }
    false
}

fn contains_format(formats: &Vec<WorkFormat>, format: WorkFormat) -> (found: bool)
    ensures
        found == formats@.contains(format),
{
    let mut i: usize = 0;
    while i < formats.len()
        invariant
            i <= formats@.len(),
            forall|k: int| 0 <= k < i ==> formats@[k] != format,
        decreases formats.len() - i,
    {
        if formats[i] == format {
            assert(formats@[i as int] == format);
            return true;
        }
        i = i + 1;
    }
    false
}

fn seen_list(dataset: &OfflineDataset) -> (seen: Vec<WorkId>)
    ensures
        seen@ == seen_ids(*dataset),
{
    let ratings = dataset.ratings();
    let events = dataset.events();
    let mut seen: Vec<WorkId> = Vec::new();
    let mut i: usize = 0;
    while i < ratings.len()
        invariant
            ratings@ == dataset.spec_ratings(),
            i <= ratings@.len(),
            seen@ == ratings@.take(i as int).map_values(|r: RatingRecord| r.spec_work_id()),
        decreases ratings.len() - i,
    {
        seen.push(ratings[i].work_id());
        assert(ratings@.take(i + 1) =~= ratings@.take(i as int).push(ratings@[i as int]));
        assert(ratings@.take(i + 1).map_values(|r: RatingRecord| r.spec_work_id())
            =~= ratings@.take(i as int).map_values(|r: RatingRecord| r.spec_work_id()).push(ratings@[i as int].spec_work_id()));
        i = i + 1;
    }
    assert(ratings@.take(ratings@.len() as int) =~= ratings@);
    let ghost rated = seen@;
    let mut j: usize = 0;
    while j < events.len()
        invariant
            events@ == dataset.spec_events(),
            j <= events@.len(),
            seen@ == rated + events@.take(j as int).map_values(|e: WatchEvent| event_work(e)),
        decreases events.len() - j,
    {
        seen.push(events[j].work_id());
        assert(events@.take(j + 1) =~= events@.take(j as int).push(events@[j as int]));
        assert(events@.take(j + 1).map_values(|e: WatchEvent| event_work(e))
            =~= events@.take(j as int).map_values(|e: WatchEvent| event_work(e)).push(event_work(events@[j as int])));
        assert(seen@ =~= rated + events@.take(j + 1).map_values(|e: WatchEvent| event_work(e)));
        j = j + 1;
    }
    assert(events@.take(events@.len() as int) =~= events@);
    seen
}

fn prerequisites_seen(prerequisites: &[WorkId], seen: &Vec<WorkId>) -> (all_seen: bool)
    ensures
        all_seen == !exists|p: int| 0 <= p < prerequisites@.len() && !seen@.contains(#[trigger] prerequisites@[p]),
{
    let mut p: usize = 0;
    while p < prerequisites.len()
        invariant
            p <= prerequisites@.len(),
            forall|q: int| 0 <= q < p ==> seen@.contains(#[trigger] prerequisites@[q]),
        decreases prerequisites.len() - p,
    {
        if !contains_id(seen, prerequisites[p]) {
            return false;
        }
        p = p + 1;
    }
    true
}

/// The first filter that eliminates a work.
fn rejected_by(work: &NormalizedWork, request: &CandidateRequest, seen: &Vec<WorkId>, dataset: &OfflineDataset) -> (filter: Option<CandidateFilter>)
    requires
        seen@ == seen_ids(*dataset),
    ensures
        filter == rejection(*work, request@, *dataset),
{
    let id = work.id();
    if contains_id(seen, id) {
        return Some(CandidateFilter::Seen);
    }
    if contains_id(&request.blacklisted, id) {
        return Some(CandidateFilter::Blacklisted);
    }
    if request.formats.len() > 0 {
        let allowed = match work.format() {
            Some(format) => contains_format(&request.formats, format),
            None => false,
        };
        if !allowed {
            return Some(CandidateFilter::Format);
        }
    }
    if request.minimum_year.is_some() || request.maximum_year.is_some() {
        let allowed = match work.release_year() {
            Some(year) => {
                let too_early = match request.minimum_year {
                    Some(low) => year.get() < low.get(),
                    None => false,
                };
                let too_late = match request.maximum_year {
                    Some(high) => year.get() > high.get(),
                    None => false,
                };
                !too_early && !too_late
            },
            None => false,
        };
        if !allowed {
            return Some(CandidateFilter::ReleaseYear);
        }
    }
    if let Some(low) = request.minimum_global_score {
        let allowed = match work.global_score() {
            Some(score) => !crate::ieee::lower(score.get(), low.get()),
            None => false,
        };
        if !allowed {
            return Some(CandidateFilter::GlobalScore);
        }
    }
    if request.require_available && !work.is_available() {
        return Some(CandidateFilter::Availability);
    }
    if request.require_prerequisites && !prerequisites_seen(work.prerequisites(), seen) {
        return Some(CandidateFilter::Prerequisites);
    }
    None
}

fn candidate_key_of(work: &NormalizedWork) -> (key: (u64, u64, u64))
    ensures
        key == candidate_key(*work),
{
    let id = work.id().get() as u64;
    match work.global_score() {
        Some(s) => (0, u64::MAX - crate::ieee::total_order_key_of(s.get()), id),
        None => (1, 0, id),
    }
}

/// The pre-ranked survivors of a catalog ordered by identifier are works of
/// that catalog, each identifier at most once.
proof fn lemma_ranked_from_catalog(catalog: Seq<NormalizedWork>, request: RequestView, dataset: OfflineDataset, ranked: Seq<NormalizedWork>)
    requires
        works_by_id(catalog),
        pre_ranked(ranked),
        work_views(ranked).to_multiset() =~= work_views(survivors(catalog, request, dataset)).to_multiset(),
    ensures
        forall|i: int| 0 <= i < ranked.len() ==> work_views(catalog).contains(#[trigger] ranked[i]@),
        forall|i: int, j: int| 0 <= i < j < ranked.len() ==> (#[trigger] ranked[i]).spec_id() != (#[trigger] ranked[j]).spec_id(),
{
    let kept = survivors(catalog, request, dataset);
    lemma_survivors_pass_every_filter(catalog, request, dataset);
    assert forall|i: int| 0 <= i < ranked.len() implies work_views(catalog).contains(#[trigger] ranked[i]@) by {
        assert(work_views(ranked)[i] == ranked[i]@);
        assert(work_views(ranked).contains(ranked[i]@));
        assert(work_views(ranked).to_multiset().count(ranked[i]@) > 0);
        assert(work_views(kept).contains(ranked[i]@));
        let j = choose|j: int| 0 <= j < work_views(kept).len() && work_views(kept)[j] == ranked[i]@;
        assert(rejection(kept[j], request, dataset) is None);
        assert(catalog.contains(kept[j]));
        let c = choose|c: int| 0 <= c < catalog.len() && catalog[c] == kept[j];
        assert(work_views(catalog)[c] == ranked[i]@);
    }
    assert forall|i: int, j: int| 0 <= i < j < ranked.len() implies (#[trigger] ranked[i]).spec_id() != (#[trigger] ranked[j]).spec_id() by {
        if ranked[i].spec_id() == ranked[j].spec_id() {
            assert(work_views(catalog).contains(ranked[i]@));
            assert(work_views(catalog).contains(ranked[j]@));
            let ci = choose|c: int| 0 <= c < work_views(catalog).len() && work_views(catalog)[c] == ranked[i]@;
            let cj = choose|c: int| 0 <= c < work_views(catalog).len() && work_views(catalog)[c] == ranked[j]@;
            assert(catalog[ci]@ == ranked[i]@);
            assert(catalog[cj]@ == ranked[j]@);
            assert(catalog[ci].spec_core() == ranked[i].spec_core());
            assert(catalog[cj].spec_core() == ranked[j].spec_core());
            if ci < cj {
                assert(catalog[ci].spec_id().spec_value() < catalog[cj].spec_id().spec_value());
            } else if cj < ci {
                assert(catalog[cj].spec_id().spec_value() < catalog[ci].spec_id().spec_value());
            }
            assert(ranked[i].spec_core() == ranked[j].spec_core());
            assert(candidate_key(ranked[i]) == candidate_key(ranked[j]));
            assert(key_less(candidate_key(ranked[i]), candidate_key(ranked[j])));
        }
    }
}

impl RecommendationEngine {
    /// Generates the admissible candidates without scoring them.
    ///
    /// Each eliminated work is counted against the first filter that
    /// eliminates it. The survivors are pre-ranked by AniList score, then by
    /// identifier, before the limit applies, which makes the result
    /// deterministic; the works cut by the limit are counted against it.
    #[verifier::rlimit(30)]
    pub fn generate_candidates(&self, dataset: &OfflineDataset, request: &CandidateRequest) -> (set: CandidateSet)
        ensures
            ({
                let kept = survivors(dataset.spec_catalog(), request@, *dataset);
                let n = if kept.len() < request@.limit { kept.len() } else { request@.limit };
                &&& set.spec_works().len() == n
                &&& exists|ranked: Seq<NormalizedWork>| {
                    &&& #[trigger] pre_ranked(ranked)
                    &&& work_views(ranked).to_multiset() =~= work_views(kept).to_multiset()
                    &&& work_views(set.spec_works()) =~= work_views(ranked).take(n as int)
                }
                &&& set.spec_report().spec_catalog_count() == dataset.spec_catalog().len()
                &&& set.spec_report().spec_accepted_count() == n
                &&& set.spec_report().spec_eliminated(CandidateFilter::Limit) == kept.len() - n
                &&& forall|filter: CandidateFilter| filter != CandidateFilter::Limit
                    ==> #[trigger] set.spec_report().spec_eliminated(filter) == eliminated(dataset.spec_catalog(), request@, *dataset, filter)
                &&& forall|i: int| 0 <= i < set.spec_works().len() ==> #[trigger] rejection(set.spec_works()[i], request@, *dataset) is None
                &&& set.spec_report().spec_accepted_count() + total_eliminated(set.spec_report()) == set.spec_report().spec_catalog_count()
                &&& forall|i: int| 0 <= i < set.spec_works().len() ==> work_views(dataset.spec_catalog()).contains(#[trigger] set.spec_works()[i]@)
                &&& forall|i: int, j: int| 0 <= i < j < set.spec_works().len()
                    ==> (#[trigger] set.spec_works()[i]).spec_id() != (#[trigger] set.spec_works()[j]).spec_id()
                &&& forall|i: int, e: int| 0 <= i < set.spec_works().len() && 0 <= e < dataset.spec_events().len()
                    ==> (#[trigger] set.spec_works()[i]).spec_id() != event_work(#[trigger] dataset.spec_events()[e])
                &&& forall|i: int, r: int| 0 <= i < set.spec_works().len() && 0 <= r < dataset.spec_ratings().len()
                    ==> (#[trigger] set.spec_works()[i]).spec_id() != (#[trigger] dataset.spec_ratings()[r]).spec_work_id()
            }),
    {
        let catalog = dataset.catalog();
        let seen = seen_list(dataset);
        let mut report = CandidateReport {
            catalog_count: catalog.len(),
            accepted_count: 0,
            seen: 0,
            blacklisted: 0,
            format: 0,
            release_year: 0,
            global_score: 0,
            availability: 0,
            prerequisites: 0,
            limit: 0,
        };
        let mut keyed: Vec<((u64, u64, u64), NormalizedWork)> = Vec::new();
        let mut c: usize = 0;
        while c < catalog.len()
            invariant
                catalog@ == dataset.spec_catalog(),
                works_by_id(catalog@),
                seen@ == seen_ids(*dataset),
                c <= catalog@.len(),
                report.spec_catalog_count() == catalog@.len(),
                report.spec_accepted_count() == 0,
                report.spec_eliminated(CandidateFilter::Limit) == 0,
                forall|filter: CandidateFilter| filter != CandidateFilter::Limit
                    ==> #[trigger] report.spec_eliminated(filter) == eliminated(catalog@.take(c as int), request@, *dataset, filter),
                forall|filter: CandidateFilter| #[trigger] report.spec_eliminated(filter) <= c,
                keyed@.len() == survivors(catalog@.take(c as int), request@, *dataset).len(),
                forall|a: int| 0 <= a < keyed@.len() ==> (#[trigger] keyed@[a]).1@ == survivors(catalog@.take(c as int), request@, *dataset)[a]@,
                forall|a: int| 0 <= a < keyed@.len() ==> (#[trigger] keyed@[a]).0 == candidate_key(keyed@[a].1),
                forall|a: int, b: int| 0 <= a < b < keyed@.len() ==> (#[trigger] keyed@[a]).1.spec_id().spec_value() < (#[trigger] keyed@[b]).1.spec_id().spec_value(),
                keyed@.len() > 0 ==> c > 0 && keyed@.last().1.spec_id().spec_value() <= catalog@[c - 1].spec_id().spec_value(),
            decreases catalog.len() - c,
        {
            let ghost before = catalog@.take(c as int);
            let ghost after = catalog@.take(c + 1);
            assert(after.drop_last() =~= before);
            assert(after.last() == catalog@[c as int]);
            let work = &catalog[c];
            match rejected_by(work, request, &seen, dataset) {
                Some(filter) => {
                    report.increment(filter);
                },
                None => {
                    let key = candidate_key_of(work);
                    let copy = work.clone();
                    proof {
                        if keyed@.len() > 0 {
                            assert(catalog@[c - 1].spec_id().spec_value() < catalog@[c as int].spec_id().spec_value());
                        }
                    }
                    keyed.push((key, copy));
                },
            }
            c = c + 1;
        }
        assert(catalog@.take(catalog@.len() as int) =~= catalog@);
        let ghost kept = survivors(catalog@, request@, *dataset);
        let ghost keyed_view = keyed@;
        let sorted_pairs = crate::sort::sort_by_key(keyed);
        let ghost sorted_view = sorted_pairs@;
        proof {
            assert forall|a: int, b: int| 0 <= a < b < keyed_view.len() implies keyed_view[a].0 != keyed_view[b].0 by {
                assert(keyed_view[a].1.spec_id().spec_value() < keyed_view[b].1.spec_id().spec_value());
            }
            crate::sort::lemma_sorted_distinct_keys(sorted_view, keyed_view);
            crate::sort::lemma_map_multiset(sorted_view, keyed_view, |p: ((u64, u64, u64), NormalizedWork)| p.1@);
        }
        let mut works = crate::sort::strip_keys(sorted_pairs);
        let ghost ranked = works@;
        proof {
            assert forall|i: int, j: int| 0 <= i < j < ranked.len() implies key_less(candidate_key(#[trigger] ranked[i]), candidate_key(#[trigger] ranked[j])) by {
                assert(key_less(sorted_view[i].0, sorted_view[j].0));
                let a = crate::sort::lemma_member_of_permutation(sorted_view, keyed_view, i);
                let b = crate::sort::lemma_member_of_permutation(sorted_view, keyed_view, j);
            }
            assert(work_views(ranked) =~= sorted_view.map_values(|p: ((u64, u64, u64), NormalizedWork)| p.1@));
            assert(work_views(kept) =~= keyed_view.map_values(|p: ((u64, u64, u64), NormalizedWork)| p.1@));
        }
        let ghost counted = report;
        assert forall|filter: CandidateFilter| filter != CandidateFilter::Limit
            implies #[trigger] counted.spec_eliminated(filter) == eliminated(dataset.spec_catalog(), request@, *dataset, filter) by {
            assert(counted.spec_eliminated(filter) == eliminated(catalog@.take(catalog@.len() as int), request@, *dataset, filter));
        }
        if works.len() > request.limit {
            report.limit = works.len() - request.limit;
            works.truncate(request.limit);
        }
        report.accepted_count = works.len();
        proof {
            assert(work_views(works@) =~= work_views(ranked).take(works@.len() as int));
            assert(pre_ranked(ranked));
            assert(ranked.len() == kept.len());
            assert(work_views(ranked).to_multiset() =~= work_views(kept).to_multiset());
        }
        proof {
            lemma_filters_partition(catalog@, request@, *dataset);
            lemma_survivors_pass_every_filter(catalog@, request@, *dataset);
            assert forall|i: int| 0 <= i < works@.len() implies #[trigger] rejection(works@[i], request@, *dataset) is None by {
                assert(work_views(works@)[i] == work_views(ranked)[i]);
                assert(work_views(ranked).to_multiset().count(ranked[i]@) > 0) by {
                    assert(work_views(ranked)[i] == ranked[i]@);
                    assert(work_views(ranked).contains(ranked[i]@));
                }
                assert(work_views(kept).contains(ranked[i]@));
                let j = choose|j: int| 0 <= j < work_views(kept).len() && work_views(kept)[j] == ranked[i]@;
                assert(kept[j]@ == works@[i]@);
                assert(rejection(kept[j], request@, *dataset) is None);
                assert(kept[j].spec_core() == works@[i].spec_core());
                assert(kept[j].spec_facts() == works@[i].spec_facts());
            }
        }
        let set = CandidateSet { works, report };
        assert(set.spec_works().len() == if kept.len() < request@.limit { kept.len() } else { request@.limit });
        assert(set.spec_report().spec_eliminated(CandidateFilter::Limit) == kept.len() - set.spec_works().len());
        assert(set.spec_report().spec_catalog_count() == dataset.spec_catalog().len());
        assert(set.spec_report().spec_accepted_count() == set.spec_works().len());
        assert forall|filter: CandidateFilter| filter != CandidateFilter::Limit
            implies #[trigger] set.spec_report().spec_eliminated(filter) == eliminated(dataset.spec_catalog(), request@, *dataset, filter) by {
            assert(set.spec_report().spec_eliminated(filter) == counted.spec_eliminated(filter));
        }
        assert(work_views(set.spec_works()) =~= work_views(ranked).take(set.spec_works().len() as int));
        proof {
            lemma_ranked_from_catalog(catalog@, request@, *dataset, ranked);
            assert forall|i: int| 0 <= i < set.spec_works().len() implies work_views(dataset.spec_catalog()).contains(#[trigger] set.spec_works()[i]@) by {
                assert(work_views(set.spec_works())[i] == work_views(ranked)[i]);
                assert(set.spec_works()[i]@ == ranked[i]@);
            }
            assert forall|i: int, j: int| 0 <= i < j < set.spec_works().len()
                implies (#[trigger] set.spec_works()[i]).spec_id() != (#[trigger] set.spec_works()[j]).spec_id() by {
                assert(work_views(set.spec_works())[i] == work_views(ranked)[i]);
                assert(work_views(set.spec_works())[j] == work_views(ranked)[j]);
                assert(set.spec_works()[i].spec_core() == ranked[i].spec_core());
                assert(set.spec_works()[j].spec_core() == ranked[j].spec_core());
            }
            assert forall|i: int, e: int| 0 <= i < set.spec_works().len() && 0 <= e < dataset.spec_events().len()
                implies (#[trigger] set.spec_works()[i]).spec_id() != event_work(#[trigger] dataset.spec_events()[e]) by {
                assert(rejection(set.spec_works()[i], request@, *dataset) is None);
                lemma_seen_works(*dataset, set.spec_works()[i].spec_id());
            }
            assert forall|i: int, r: int| 0 <= i < set.spec_works().len() && 0 <= r < dataset.spec_ratings().len()
                implies (#[trigger] set.spec_works()[i]).spec_id() != (#[trigger] dataset.spec_ratings()[r]).spec_work_id() by {
                assert(rejection(set.spec_works()[i], request@, *dataset) is None);
                lemma_seen_works(*dataset, set.spec_works()[i].spec_id());
            }
        }
        set
    }
}

/// The line that reports the filtering.
pub open spec fn report_line(r: CandidateReport) -> Seq<char> {
    "candidates: catalog="@ + decimal_of(r.spec_catalog_count())
        + " accepted="@ + decimal_of(r.spec_accepted_count())
        + " seen="@ + decimal_of(r.spec_eliminated(CandidateFilter::Seen))
        + " blacklisted="@ + decimal_of(r.spec_eliminated(CandidateFilter::Blacklisted))
        + " format="@ + decimal_of(r.spec_eliminated(CandidateFilter::Format))
        + " year="@ + decimal_of(r.spec_eliminated(CandidateFilter::ReleaseYear))
        + " score="@ + decimal_of(r.spec_eliminated(CandidateFilter::GlobalScore))
        + " unavailable="@ + decimal_of(r.spec_eliminated(CandidateFilter::Availability))
        + " prerequisites="@ + decimal_of(r.spec_eliminated(CandidateFilter::Prerequisites))
        + " limit="@ + decimal_of(r.spec_eliminated(CandidateFilter::Limit))
}

impl CandidateReport {
    /// The line that reports the filtering, as the CLI prints it.
    pub fn line(&self) -> (text: String)
        ensures
            text@ == report_line(*self),
    {
        let mut text = String::from_str("candidates: catalog=");
        text.append(decimal_u64(self.catalog_count as u64).as_str());
        text.append(" accepted=");
        text.append(decimal_u64(self.accepted_count as u64).as_str());
        text.append(" seen=");
        text.append(decimal_u64(self.seen as u64).as_str());
        text.append(" blacklisted=");
        text.append(decimal_u64(self.blacklisted as u64).as_str());
        text.append(" format=");
        text.append(decimal_u64(self.format as u64).as_str());
        text.append(" year=");
        text.append(decimal_u64(self.release_year as u64).as_str());
        text.append(" score=");
        text.append(decimal_u64(self.global_score as u64).as_str());
        text.append(" unavailable=");
        text.append(decimal_u64(self.availability as u64).as_str());
        text.append(" prerequisites=");
        text.append(decimal_u64(self.prerequisites as u64).as_str());
        text.append(" limit=");
        text.append(decimal_u64(self.limit as u64).as_str());
        text
    }
}

/// The message of a refused request.
pub open spec fn candidate_message(e: CandidateError) -> Seq<char> {
    match e {
        CandidateError::InvalidConfiguration { field, reason } => "invalid candidate request "@ + field@ + ": "@ + reason@,
    }
}

impl CandidateError {
    /// The message of the failure.
    pub fn message(&self) -> (text: String)
        ensures
            text@ == candidate_message(*self),
    {
        match self {
            CandidateError::InvalidConfiguration { field, reason } => {
                let mut text = String::from_str("invalid candidate request ");
                text.append(field);
                text.append(": ");
                text.append(reason);
                text
            },
        }
    }
}

} // verus!
