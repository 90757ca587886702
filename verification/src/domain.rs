//! Domain contracts shared by every part of the engine.
//!
//! Each constructor enforces its invariant; numbers that the engine computes
//! with in double precision are held by their binary64 bit pattern (see
//! [`crate::ieee`]).

use vstd::prelude::*;
use crate::ieee::{is_finite, is_zero, within, TEN_BITS, ONE_BITS};
use crate::text::{trimmed, lowercase_of, ascii_lower_char, lex_less};

verus! {

broadcast use vstd::seq_lib::group_to_multiset_ensures;

/// A validation error of a domain contract.
#[derive(Debug, Clone, PartialEq)]
pub enum DomainError {
    InvalidValue { field: &'static str, reason: &'static str },
    EmptyText { field: &'static str },
    DuplicateTag(String),
    DuplicateAxis(PersonalAxis),
}

// ---------------------------------------------------------------- numbers

/// The outcome of checking that a pattern encodes a finite number in `[0, upper]`.
pub open spec fn range_check(field: &'static str, bits: u64, upper: u64) -> Result<u64, DomainError> {
    if !is_finite(bits) {
        Err(DomainError::InvalidValue { field, reason: "must be finite" })
    } else if !within(bits, upper) {
        Err(DomainError::InvalidValue { field, reason: "is outside the allowed range" })
    } else {
        Ok(bits)
    }
}

fn validate_finite_range(field: &'static str, bits: u64, upper: u64) -> (result: Result<u64, DomainError>)
    ensures
        result == range_check(field, bits, upper),
{
    if !crate::ieee::finite(bits) {
        return Err(DomainError::InvalidValue { field, reason: "must be finite" });
    }
    if !crate::ieee::in_range(bits, upper) {
        return Err(DomainError::InvalidValue { field, reason: "is outside the allowed range" });
    }
    Ok(bits)
}

/// A finite rating in `[0, 10]`, held by its binary64 pattern.
#[derive(Debug, Clone, Copy, PartialEq)]
pub struct Rating {
    bits: u64,
}

impl Rating {
    /// The binary64 pattern of the rating.
    pub closed spec fn spec_bits(self) -> u64 {
        self.bits
    }

    #[verifier::type_invariant]
    closed spec fn valid(self) -> bool {
        within(self.bits, TEN_BITS)
    }

    /// Builds a rating from the pattern of a number; refuses a non-finite
    /// number or one outside `[0, 10]`.
    pub fn new(bits: u64) -> (result: Result<Rating, DomainError>)
        ensures
            match range_check("rating", bits, TEN_BITS) {
                Ok(b) => result matches Ok(r) && r.spec_bits() == b,
                Err(e) => result == Err::<Rating, DomainError>(e),
            },
    {
        let b = validate_finite_range("rating", bits, TEN_BITS)?;
        Ok(Rating { bits: b })
    }

    /// The binary64 pattern of the rating.
    pub fn get(self) -> (bits: u64)
        ensures
            bits == self.spec_bits(),
            within(bits, TEN_BITS),
    {
        proof { use_type_invariant(&self); }
        self.bits
    }
}

/// A finite ratio in `[0, 1]`, held by its binary64 pattern.
#[derive(Debug, Clone, Copy, PartialEq)]
pub struct Ratio {
    bits: u64,
}

impl Ratio {
    /// The binary64 pattern of the ratio.
    pub closed spec fn spec_bits(self) -> u64 {
        self.bits
    }

    #[verifier::type_invariant]
    closed spec fn valid(self) -> bool {
        within(self.bits, ONE_BITS)
    }

    /// Builds a ratio; refuses a non-finite number or one outside `[0, 1]`.
    pub fn new(bits: u64) -> (result: Result<Ratio, DomainError>)
        ensures
            match range_check("ratio", bits, ONE_BITS) {
                Ok(b) => result matches Ok(r) && r.spec_bits() == b,
                Err(e) => result == Err::<Ratio, DomainError>(e),
            },
    {
        let b = validate_finite_range("ratio", bits, ONE_BITS)?;
        Ok(Ratio { bits: b })
    }

    /// The binary64 pattern of the ratio.
    pub fn get(self) -> (bits: u64)
        ensures
            bits == self.spec_bits(),
            within(bits, ONE_BITS),
    {
        proof { use_type_invariant(&self); }
        self.bits
    }
}

/// A finite weight in `[0, 1]`, held by its binary64 pattern.
#[derive(Debug, Clone, Copy, PartialEq)]
pub struct Weight {
    bits: u64,
}

impl Weight {
    /// The binary64 pattern of the weight.
    pub closed spec fn spec_bits(self) -> u64 {
        self.bits
    }

    #[verifier::type_invariant]
    closed spec fn valid(self) -> bool {
        within(self.bits, ONE_BITS)
    }

    /// Builds a weight; refuses a non-finite number or one outside `[0, 1]`.
    pub fn new(bits: u64) -> (result: Result<Weight, DomainError>)
        ensures
            match range_check("weight", bits, ONE_BITS) {
                Ok(b) => result matches Ok(r) && r.spec_bits() == b,
                Err(e) => result == Err::<Weight, DomainError>(e),
            },
    {
        let b = validate_finite_range("weight", bits, ONE_BITS)?;
        Ok(Weight { bits: b })
    }

    /// The binary64 pattern of the weight.
    pub fn get(self) -> (bits: u64)
        ensures
            bits == self.spec_bits(),
            within(bits, ONE_BITS),
    {
        proof { use_type_invariant(&self); }
        self.bits
    }
}

/// A signed finite contribution to a score, held by its binary64 pattern.
#[derive(Debug, Clone, Copy, PartialEq)]
pub struct ScoreDelta {
    bits: u64,
}

impl ScoreDelta {
    /// The binary64 pattern of the delta.
    pub closed spec fn spec_bits(self) -> u64 {
        self.bits
    }

    #[verifier::type_invariant]
    closed spec fn valid(self) -> bool {
        is_finite(self.bits)
    }

    /// Builds a delta; refuses a non-finite number.
    pub fn new(bits: u64) -> (result: Result<ScoreDelta, DomainError>)
        ensures
            is_finite(bits) ==> (result matches Ok(d) && d.spec_bits() == bits),
            !is_finite(bits) ==> result == Err::<ScoreDelta, DomainError>(
                DomainError::InvalidValue { field: "score_delta", reason: "must be finite" },
            ),
    {
        if !crate::ieee::finite(bits) {
            return Err(DomainError::InvalidValue { field: "score_delta", reason: "must be finite" });
        }
        Ok(ScoreDelta { bits })
    }

    /// The binary64 pattern of the delta.
    pub fn get(self) -> (bits: u64)
        ensures
            bits == self.spec_bits(),
            is_finite(bits),
    {
        proof { use_type_invariant(&self); }
        self.bits
    }
}

/// A strictly positive AniList identifier.
#[derive(Debug, Clone, Copy, PartialEq, Eq, Structural, Hash, PartialOrd, Ord)]
pub struct WorkId {
    value: u32,
}

impl WorkId {
    /// The raw identifier.
    pub closed spec fn spec_value(self) -> u32 {
        self.value
    }

    #[verifier::type_invariant]
    closed spec fn valid(self) -> bool {
        self.value > 0
    }

    /// Builds an identifier; zero is refused.
    pub fn new(value: u32) -> (result: Result<WorkId, DomainError>)
        ensures
            value == 0 ==> result == Err::<WorkId, DomainError>(DomainError::InvalidValue {
                field: "work_id",
                reason: "must be greater than zero",
            }),
            value > 0 ==> (result matches Ok(id) && id.spec_value() == value),
    {
        if value == 0 {
            return Err(DomainError::InvalidValue { field: "work_id", reason: "must be greater than zero" });
        }
        Ok(WorkId { value })
    }

    /// The raw identifier.
    pub fn get(self) -> (value: u32)
        ensures
            value == self.spec_value(),
            value > 0,
    {
        proof { use_type_invariant(&self); }
        self.value
    }

    /// Two identifiers are the same value exactly when their raw values are.
    pub proof fn lemma_value_injective(a: WorkId, b: WorkId)
        ensures
            a.spec_value() == b.spec_value() <==> a == b,
    {
    }
}

/// A strictly positive total runtime, in minutes.
#[derive(Debug, Clone, Copy, PartialEq, Eq)]
pub struct RuntimeMinutes {
    value: u32,
}

impl RuntimeMinutes {
    /// The runtime in minutes.
    pub closed spec fn spec_value(self) -> u32 {
        self.value
    }

    /// Builds a runtime; zero is refused.
    pub fn new(value: u32) -> (result: Result<RuntimeMinutes, DomainError>)
        ensures
            value == 0 ==> result == Err::<RuntimeMinutes, DomainError>(DomainError::InvalidValue {
                field: "runtime_minutes",
                reason: "must be greater than zero",
            }),
            value > 0 ==> (result matches Ok(r) && r.spec_value() == value),
    {
        if value == 0 {
            return Err(DomainError::InvalidValue { field: "runtime_minutes", reason: "must be greater than zero" });
        }
        Ok(RuntimeMinutes { value })
    }

    /// The runtime in minutes.
    pub fn get(self) -> (value: u32)
        ensures
            value == self.spec_value(),
    {
        self.value
    }
}

/// The first year the catalog accepts for a release.
pub const FIRST_RELEASE_YEAR: u16 = 1900;

/// A release year, not before [`FIRST_RELEASE_YEAR`].
#[derive(Debug, Clone, Copy, PartialEq, Eq, Structural, Hash, PartialOrd, Ord)]
pub struct ReleaseYear {
    value: u16,
}

impl ReleaseYear {
    /// The year.
    pub closed spec fn spec_value(self) -> u16 {
        self.value
    }

    /// Builds a release year; a year before 1900 is refused.
    pub fn new(value: u16) -> (result: Result<ReleaseYear, DomainError>)
        ensures
            value < FIRST_RELEASE_YEAR ==> result == Err::<ReleaseYear, DomainError>(
                DomainError::InvalidValue { field: "release_year", reason: "must not precede 1900" },
            ),
            value >= FIRST_RELEASE_YEAR ==> (result matches Ok(y) && y.spec_value() == value),
    {
        if value < FIRST_RELEASE_YEAR {
            return Err(DomainError::InvalidValue { field: "release_year", reason: "must not precede 1900" });
        }
        Ok(ReleaseYear { value })
    }

    /// The year.
    pub fn get(self) -> (value: u16)
        ensures
            value == self.spec_value(),
    {
        self.value
    }
}

/// The broadcast format of a work.
#[derive(Debug, Clone, Copy, PartialEq, Eq, Structural, Hash, PartialOrd, Ord)]
pub enum WorkFormat {
    Tv,
    Movie,
    Ova,
    Ona,
    Special,
    Music,
}

/// The position of a format in the declaration order (its `Ord`).
pub open spec fn format_rank(format: WorkFormat) -> u64 {
    match format {
        WorkFormat::Tv => 0,
        WorkFormat::Movie => 1,
        WorkFormat::Ova => 2,
        WorkFormat::Ona => 3,
        WorkFormat::Special => 4,
        WorkFormat::Music => 5,
    }
}

/// Two formats share a rank only when they are the same format.
pub proof fn lemma_format_rank_injective(a: WorkFormat, b: WorkFormat)
    ensures
        format_rank(a) == format_rank(b) <==> a == b,
{
}

/// Computes [`format_rank`].
pub fn format_rank_of(format: WorkFormat) -> (rank: u64)
    ensures
        rank == format_rank(format),
{
    match format {
        WorkFormat::Tv => 0,
        WorkFormat::Movie => 1,
        WorkFormat::Ova => 2,
        WorkFormat::Ona => 3,
        WorkFormat::Special => 4,
        WorkFormat::Music => 5,
    }
}

/// The five axes on which a work can receive a personal credit.
#[derive(Debug, Clone, Copy, PartialEq, Eq, Structural, Hash, PartialOrd, Ord)]
pub enum PersonalAxis {
    Story,
    Characters,
    WorldBuilding,
    VisualDirection,
    SoundAndMusic,
}

// ---------------------------------------------------------------- text

/// The outcome of normalizing a required text.
pub open spec fn text_check(field: &'static str, value: Seq<char>) -> Result<Seq<char>, DomainError> {
    if trimmed(value).len() == 0 {
        Err(DomainError::EmptyText { field })
    } else {
        Ok(trimmed(value))
    }
}

/// Trims a required text and refuses it when nothing is left.
pub fn normalized_text(field: &'static str, value: &str) -> (result: Result<String, DomainError>)
    ensures
        match text_check(field, value@) {
            Ok(t) => result matches Ok(s) && s@ == t,
            Err(e) => result == Err::<String, DomainError>(e),
        },
{
    let normalized = crate::text::trim(value);
    if normalized.as_str().is_empty() {
        return Err(DomainError::EmptyText { field });
    }
    Ok(normalized)
}


// ---------------------------------------------------------------- tags and works

/// A weighted AniList tag; its weight is never zero.
#[derive(Debug, PartialEq)]
pub struct TagWeight {
    name: String,
    weight: Weight,
}

impl TagWeight {
    /// The tag's name.
    pub closed spec fn spec_name(self) -> Seq<char> {
        self.name@
    }

    /// The tag's weight.
    pub closed spec fn spec_weight(self) -> Weight {
        self.weight
    }

    /// Builds a tag: the name is trimmed and must not be empty, the weight
    /// must not be zero.
    pub fn new(name: String, weight: Weight) -> (result: Result<TagWeight, DomainError>)
        ensures
            match text_check("tag.name", name@) {
                Err(e) => result == Err::<TagWeight, DomainError>(e),
                Ok(t) => if is_zero(weight.spec_bits()) {
                    result == Err::<TagWeight, DomainError>(DomainError::InvalidValue {
                        field: "tag.weight",
                        reason: "must be greater than zero",
                    })
                } else {
                    result matches Ok(tag) && tag.spec_name() == t && tag.spec_weight() == weight
                },
            },
    {
        let name = normalized_text("tag.name", name.as_str())?;
        if crate::ieee::zero(weight.get()) {
            return Err(DomainError::InvalidValue { field: "tag.weight", reason: "must be greater than zero" });
        }
        Ok(TagWeight { name, weight })
    }

    /// The tag's name.
    pub fn name(&self) -> (name: &str)
        ensures
            name@ == self.spec_name(),
    {
        self.name.as_str()
    }

    /// The tag's weight.
    pub fn weight(&self) -> (weight: Weight)
        ensures
            weight == self.spec_weight(),
    {
        self.weight
    }
}

impl Clone for TagWeight {
    fn clone(&self) -> (copy: Self)
        ensures
            copy == *self,
    {
        TagWeight { name: self.name.clone(), weight: self.weight }
    }
}

/// The case-insensitive key under which two tags of one work may not meet.
pub open spec fn tag_key(tag: TagWeight) -> Seq<char> {
    lowercase_of(tag.spec_name())
}

/// The keys of a list of tags.
pub open spec fn tag_keys(tags: Seq<TagWeight>) -> Seq<Seq<char>> {
    tags.map_values(|t: TagWeight| tag_key(t))
}

/// `j` is the first position whose tag repeats the key of an earlier tag.
pub open spec fn is_first_duplicate(keys: Seq<Seq<char>>, j: int) -> bool {
    &&& 0 <= j < keys.len()
    &&& exists|i: int| 0 <= i < j && keys[i] == keys[j]
    &&& forall|a: int, b: int| 0 <= a < b < j ==> keys[a] != keys[b]
}

/// No two keys are equal.
pub open spec fn keys_distinct(keys: Seq<Seq<char>>) -> bool {
    forall|a: int, b: int| 0 <= a < b < keys.len() ==> keys[a] != keys[b]
}

/// The tags are in the order of their names.
pub open spec fn tags_sorted(tags: Seq<TagWeight>) -> bool {
    forall|i: int, j: int| 0 <= i < j < tags.len() ==> !lex_less(#[trigger] tags[j].spec_name(), #[trigger] tags[i].spec_name())
}

/// Finds the first tag whose case-insensitive name repeats an earlier one.
fn find_duplicate_tag(tags: &Vec<TagWeight>) -> (found: Option<usize>)
    ensures
        match found {
            Some(j) => is_first_duplicate(tag_keys(tags@), j as int),
            None => keys_distinct(tag_keys(tags@)),
        },
{
    let ghost keys = tag_keys(tags@);
    let mut lowered: Vec<String> = Vec::new();
    let mut j: usize = 0;
    while j < tags.len()
        invariant
            keys == tag_keys(tags@),
            j <= tags.len(),
            lowered@.len() == j,
            forall|k: int| 0 <= k < j ==> #[trigger] lowered@[k]@ == keys[k],
            forall|a: int, b: int| 0 <= a < b < j ==> keys[a] != keys[b],
        decreases tags.len() - j,
    {
        let key = crate::text::lowercase(tags[j].name());
        let mut i: usize = 0;
        while i < j
            invariant
                keys == tag_keys(tags@),
                j < tags.len(),
                i <= j,
                lowered@.len() == j,
                key@ == keys[j as int],
                forall|k: int| 0 <= k < j ==> #[trigger] lowered@[k]@ == keys[k],
                forall|k: int| 0 <= k < i ==> keys[k] != keys[j as int],
                forall|a: int, b: int| 0 <= a < b < j ==> keys[a] != keys[b],
            decreases j - i,
        {
            if lowered[i] == key {
                assert(keys[i as int] == keys[j as int]);
                return Some(j);
            }
            i = i + 1;
        }
        lowered.push(key);
        j = j + 1;
    }
    None
}

/// Sorts tags by name; the result holds exactly the input tags.
fn sort_tags_by_name(tags: Vec<TagWeight>) -> (sorted: Vec<TagWeight>)
    ensures
        tags_sorted(sorted@),
        sorted@.to_multiset() =~= tags@.to_multiset(),
        sorted@.len() == tags@.len(),
{
    let mut remaining = tags;
    let mut sorted: Vec<TagWeight> = Vec::new();
    let ghost original = remaining@;
    while remaining.len() > 0
        invariant
            sorted@.to_multiset().add(remaining@.to_multiset()) =~= original.to_multiset(),
            tags_sorted(sorted@),
            forall|i: int, k: int|
                0 <= i < sorted@.len() && 0 <= k < remaining@.len() ==> !lex_less(
                    #[trigger] remaining@[k].spec_name(),
                    #[trigger] sorted@[i].spec_name(),
                ),
        decreases remaining.len(),
    {
        let mut best: usize = 0;
        let mut k: usize = 1;
        proof {
            crate::text::lemma_lex_less_asymmetric(remaining@[0].spec_name(), remaining@[0].spec_name());
        }
        while k < remaining.len()
            invariant
                0 <= best < remaining@.len(),
                1 <= k <= remaining@.len(),
                forall|m: int| 0 <= m < k ==> !lex_less(#[trigger] remaining@[m].spec_name(), remaining@[best as int].spec_name()),
            decreases remaining.len() - k,
        {
            if crate::text::text_less(remaining[k].name(), remaining[best].name()) {
                proof {
                    assert forall|m: int| 0 <= m < k + 1 implies !lex_less(#[trigger] remaining@[m].spec_name(), remaining@[k as int].spec_name()) by {
                        crate::text::lemma_lex_less_asymmetric(remaining@[m].spec_name(), remaining@[k as int].spec_name());
                        if m < k && lex_less(remaining@[m].spec_name(), remaining@[k as int].spec_name()) {
                            crate::text::lemma_lex_less_transitive(remaining@[m].spec_name(), remaining@[k as int].spec_name(), remaining@[best as int].spec_name());
                        }
                    }
                }
                best = k;
            }
            k = k + 1;
        }
        let ghost before = remaining@;
        let item = remaining.remove(best);
        proof {
            assert(before.remove(best as int) =~= remaining@);
            assert(before[best as int] == item);
            assert(before.contains(item));
            assert(remaining@.to_multiset() =~= before.to_multiset().remove(item));
        }
        let ghost prev_sorted = sorted@;
        sorted.push(item);
        proof {
            assert(sorted@ =~= prev_sorted.push(item));
            assert(sorted@.to_multiset() =~= prev_sorted.to_multiset().insert(item));
            assert forall|i: int, k2: int|
                0 <= i < sorted@.len() && 0 <= k2 < remaining@.len() implies !lex_less(
                    #[trigger] remaining@[k2].spec_name(),
                    #[trigger] sorted@[i].spec_name(),
                ) by {
                let src = if k2 < best { k2 } else { k2 + 1 };
                assert(remaining@[k2] == before[src]);
                if i < prev_sorted.len() {
                    assert(sorted@[i] == prev_sorted[i]);
                } else {
                    assert(sorted@[i] == before[best as int]);
                }
            }
            assert forall|i: int, j: int| 0 <= i < j < sorted@.len() implies !lex_less(
                #[trigger] sorted@[j].spec_name(),
                #[trigger] sorted@[i].spec_name(),
            ) by {
                assert(sorted@[i] == prev_sorted[i]);
                if j < prev_sorted.len() {
                    assert(sorted@[j] == prev_sorted[j]);
                } else {
                    assert(sorted@[j] == before[best as int]);
                }
            }
        }
    }
    proof {
        assert(remaining@.to_multiset() =~= vstd::multiset::Multiset::empty());
        assert(sorted@.len() == sorted@.to_multiset().len());
        assert(original.len() == original.to_multiset().len());
    }
    sorted
}


/// The optional catalog facts of a work, as plain values.
pub ghost struct WorkFacts {
    pub runtime_minutes: Option<RuntimeMinutes>,
    pub format: Option<WorkFormat>,
    pub release_year: Option<ReleaseYear>,
    pub available: bool,
    pub prerequisites: Seq<WorkId>,
    pub franchise: Option<Seq<char>>,
    pub studios: Seq<Seq<char>>,
}

/// The facts of a work that only its constructor sets.
pub ghost struct WorkCore {
    pub id: WorkId,
    pub title: Seq<char>,
    pub global_score: Option<Rating>,
    pub tags: Seq<TagWeight>,
}

/// The facts of a freshly built work: nothing known, available, no prerequisite.
pub open spec fn default_facts() -> WorkFacts {
    WorkFacts {
        runtime_minutes: None,
        format: None,
        release_year: None,
        available: true,
        prerequisites: Seq::empty(),
        franchise: None,
        studios: Seq::empty(),
    }
}

/// The minimal catalog representation used by the offline engine.
#[derive(Debug, PartialEq)]
pub struct NormalizedWork {
    id: WorkId,
    title: String,
    global_score: Option<Rating>,
    tags: Vec<TagWeight>,
    runtime_minutes: Option<RuntimeMinutes>,
    format: Option<WorkFormat>,
    release_year: Option<ReleaseYear>,
    available: bool,
    prerequisites: Vec<WorkId>,
    franchise: Option<String>,
    studios: Vec<String>,
}

impl NormalizedWork {
    /// The identifier, title, catalog score and tags.
    pub closed spec fn spec_core(self) -> WorkCore {
        WorkCore { id: self.id, title: self.title@, global_score: self.global_score, tags: self.tags@ }
    }

    /// The optional catalog facts.
    pub closed spec fn spec_facts(self) -> WorkFacts {
        WorkFacts {
            runtime_minutes: self.runtime_minutes,
            format: self.format,
            release_year: self.release_year,
            available: self.available,
            prerequisites: self.prerequisites@,
            franchise: match self.franchise { Some(f) => Some(f@), None => None },
            studios: self.studios@.map_values(|s: String| s@),
        }
    }

    /// The identifier.
    pub open spec fn spec_id(self) -> WorkId {
        self.spec_core().id
    }

    #[verifier::type_invariant]
    closed spec fn tags_well_formed(self) -> bool {
        tags_sorted(self.tags@) && keys_distinct(tag_keys(self.tags@))
    }


    /// Builds a work: the title is trimmed and must not be empty, two tags
    /// may not share a name regardless of case, and the tags are ordered by
    /// name.
    pub fn new(id: WorkId, title: String, global_score: Option<Rating>, tags: Vec<TagWeight>) -> (result: Result<NormalizedWork, DomainError>)
        ensures
            match text_check("work.title", title@) {
                Err(e) => result == Err::<NormalizedWork, DomainError>(e),
                Ok(t) => if keys_distinct(tag_keys(tags@)) {
                    result matches Ok(w) && w.spec_core().id == id && w.spec_core().title == t
                        && w.spec_core().global_score == global_score
                        && tags_sorted(w.spec_core().tags)
                        && w.spec_core().tags.to_multiset() =~= tags@.to_multiset()
                        && w.spec_facts() == default_facts()
                } else {
                    exists|j: int| #[trigger] is_first_duplicate(tag_keys(tags@), j)
                        && (result matches Err(DomainError::DuplicateTag(n)) && n@ == tags@[j].spec_name())
                },
            },
    {
        let title = normalized_text("work.title", title.as_str())?;
        if let Some(j) = find_duplicate_tag(&tags) {
            let name = tags[j].name.clone();
            return Err(DomainError::DuplicateTag(name));
        }
        let ghost given = tags@;
        let tags = sort_tags_by_name(tags);
        proof {
            crate::sort::lemma_map_multiset(tags@, given, |t: TagWeight| tag_key(t));
            assert(tag_keys(given).no_duplicates());
            tag_keys(given).lemma_multiset_has_no_duplicates();
            tag_keys(tags@).lemma_multiset_has_no_duplicates_conv();
        }
        let w = NormalizedWork {
            id,
            title,
            global_score,
            tags,
            runtime_minutes: None,
            format: None,
            release_year: None,
            available: true,
            prerequisites: Vec::new(),
            franchise: None,
            studios: Vec::new(),
        };
        proof {
            assert(w.spec_facts().studios =~= Seq::<Seq<char>>::empty());
            assert(w.spec_facts().prerequisites =~= Seq::<WorkId>::empty());
        }
        Ok(w)
    }

    /// The identifier.
    pub fn id(&self) -> (id: WorkId)
        ensures
            id == self.spec_core().id,
    {
        self.id
    }

    /// The trimmed title.
    pub fn title(&self) -> (title: &str)
        ensures
            title@ == self.spec_core().title,
    {
        self.title.as_str()
    }

    /// The AniList score, when known.
    pub fn global_score(&self) -> (score: Option<Rating>)
        ensures
            score == self.spec_core().global_score,
    {
        self.global_score
    }

    /// The tags, ordered by name.
    pub fn tags(&self) -> (tags: &[TagWeight])
        ensures
            tags@ == self.spec_core().tags,
            tags_sorted(tags@),
            keys_distinct(tag_keys(tags@)),
    {
        proof { use_type_invariant(self); }
        self.tags.as_slice()
    }

    /// The total runtime, when known.
    pub fn runtime_minutes(&self) -> (runtime: Option<RuntimeMinutes>)
        ensures
            runtime == self.spec_facts().runtime_minutes,
    {
        self.runtime_minutes
    }

    /// The format, when known.
    pub fn format(&self) -> (format: Option<WorkFormat>)
        ensures
            format == self.spec_facts().format,
    {
        self.format
    }

    /// The release year, when known.
    pub fn release_year(&self) -> (year: Option<ReleaseYear>)
        ensures
            year == self.spec_facts().release_year,
    {
        self.release_year
    }

    /// Whether the work can be watched.
    pub fn is_available(&self) -> (available: bool)
        ensures
            available == self.spec_facts().available,
    {
        self.available
    }

    /// The works that must be seen first.
    pub fn prerequisites(&self) -> (ids: &[WorkId])
        ensures
            ids@ == self.spec_facts().prerequisites,
    {
        self.prerequisites.as_slice()
    }

    /// The franchise, when known.
    pub fn franchise(&self) -> (franchise: Option<&str>)
        ensures
            match franchise {
                Some(f) => self.spec_facts().franchise == Some(f@),
                None => self.spec_facts().franchise is None,
            },
    {
        match &self.franchise {
            Some(f) => Some(f.as_str()),
            None => None,
        }
    }

    /// The main studios.
    pub fn studios(&self) -> (studios: &[String])
        ensures
            studios@.map_values(|s: String| s@) == self.spec_facts().studios,
    {
        self.studios.as_slice()
    }

    /// The work with a known total runtime.
    pub fn with_runtime_minutes(self, runtime: RuntimeMinutes) -> (work: NormalizedWork)
        ensures
            work.spec_core() == self.spec_core(),
            work.spec_facts() == (WorkFacts { runtime_minutes: Some(runtime), ..self.spec_facts() }),
    {
        proof { use_type_invariant(&self); }
        NormalizedWork { runtime_minutes: Some(runtime), ..self }
    }

    /// The work with a known format.
    pub fn with_format(self, format: WorkFormat) -> (work: NormalizedWork)
        ensures
            work.spec_core() == self.spec_core(),
            work.spec_facts() == (WorkFacts { format: Some(format), ..self.spec_facts() }),
    {
        proof { use_type_invariant(&self); }
        NormalizedWork { format: Some(format), ..self }
    }

    /// The work with a known release year.
    pub fn with_release_year(self, year: ReleaseYear) -> (work: NormalizedWork)
        ensures
            work.spec_core() == self.spec_core(),
            work.spec_facts() == (WorkFacts { release_year: Some(year), ..self.spec_facts() }),
    {
        proof { use_type_invariant(&self); }
        NormalizedWork { release_year: Some(year), ..self }
    }

    /// The work marked available or not.
    pub fn with_availability(self, available: bool) -> (work: NormalizedWork)
        ensures
            work.spec_core() == self.spec_core(),
            work.spec_facts() == (WorkFacts { available, ..self.spec_facts() }),
    {
        proof { use_type_invariant(&self); }
        NormalizedWork { available, ..self }
    }

    /// The work with the works that must be seen first; an identifier may
    /// appear once and the work may not require itself.
    pub fn with_prerequisites(self, prerequisites: Vec<WorkId>) -> (result: Result<NormalizedWork, DomainError>)
        ensures
            (prerequisites@.contains(self.spec_core().id)) ==> result == Err::<NormalizedWork, DomainError>(
                DomainError::InvalidValue { field: "work.prerequisites", reason: "must not contain the work itself" },
            ),
            (!prerequisites@.contains(self.spec_core().id) && !prerequisites@.no_duplicates()) ==> result == Err::<NormalizedWork, DomainError>(
                DomainError::InvalidValue { field: "work.prerequisites", reason: "must not contain duplicates" },
            ),
            (!prerequisites@.contains(self.spec_core().id) && prerequisites@.no_duplicates()) ==> (result matches Ok(work)
                && work.spec_core() == self.spec_core()
                && work.spec_facts() == (WorkFacts { prerequisites: prerequisites@, ..self.spec_facts() })),
    {
        let mut i: usize = 0;
        while i < prerequisites.len()
            invariant
                i <= prerequisites.len(),
                forall|k: int| 0 <= k < i ==> prerequisites@[k] != self.spec_core().id,
            decreases prerequisites.len() - i,
        {
            if prerequisites[i].get() == self.id.get() {
                proof { WorkId::lemma_value_injective(prerequisites@[i as int], self.id); }
                return Err(DomainError::InvalidValue { field: "work.prerequisites", reason: "must not contain the work itself" });
            }
            proof { WorkId::lemma_value_injective(prerequisites@[i as int], self.id); }
            i = i + 1;
        }
        assert(!prerequisites@.contains(self.spec_core().id));
        let mut j: usize = 0;
        while j < prerequisites.len()
            invariant
                j <= prerequisites.len(),
                !prerequisites@.contains(self.spec_core().id),
                forall|a: int, b: int| 0 <= a < b < j ==> prerequisites@[a] != prerequisites@[b],
            decreases prerequisites.len() - j,
        {
            let mut a: usize = 0;
            while a < j
                invariant
                    j < prerequisites.len(),
                    a <= j,
                    !prerequisites@.contains(self.spec_core().id),
                    forall|x: int| 0 <= x < a ==> prerequisites@[x] != prerequisites@[j as int],
                decreases j - a,
            {
                proof { WorkId::lemma_value_injective(prerequisites@[a as int], prerequisites@[j as int]); }
                if prerequisites[a].get() == prerequisites[j].get() {
                    proof { assert(!prerequisites@.no_duplicates()); }
                    return Err(DomainError::InvalidValue { field: "work.prerequisites", reason: "must not contain duplicates" });
                }
                a = a + 1;
            }
            j = j + 1;
        }
        proof { use_type_invariant(&self); }
        Ok(NormalizedWork { prerequisites, ..self })
    }

    /// The work with a franchise; its name is trimmed and must not be empty.
    pub fn with_franchise(self, franchise: String) -> (result: Result<NormalizedWork, DomainError>)
        ensures
            match text_check("work.franchise", franchise@) {
                Err(e) => result == Err::<NormalizedWork, DomainError>(e),
                Ok(t) => result matches Ok(work) && work.spec_core() == self.spec_core()
                    && work.spec_facts() == (WorkFacts { franchise: Some(t), ..self.spec_facts() }),
            },
    {
        let name = normalized_text("work.franchise", franchise.as_str())?;
        proof { use_type_invariant(&self); }
        Ok(NormalizedWork { franchise: Some(name), ..self })
    }

    /// The work with its main studios; each name is trimmed and must not be empty.
    pub fn with_studios(self, studios: Vec<String>) -> (result: Result<NormalizedWork, DomainError>)
        ensures
            (forall|k: int| 0 <= k < studios@.len() ==> trimmed(#[trigger] studios@[k]@).len() > 0) ==> (result matches Ok(work)
                && work.spec_core() == self.spec_core()
                && work.spec_facts() == (WorkFacts {
                    studios: studios@.map_values(|s: String| trimmed(s@)),
                    ..self.spec_facts()
                })),
            (exists|k: int| 0 <= k < studios@.len() && trimmed(#[trigger] studios@[k]@).len() == 0) ==> result
                == Err::<NormalizedWork, DomainError>(DomainError::EmptyText { field: "work.studio" }),
    {
        let mut names: Vec<String> = Vec::new();
        let mut i: usize = 0;
        while i < studios.len()
            invariant
                i <= studios.len(),
                names@.len() == i,
                forall|k: int| 0 <= k < i ==> #[trigger] names@[k]@ == trimmed(studios@[k]@),
                forall|k: int| 0 <= k < i ==> trimmed(#[trigger] studios@[k]@).len() > 0,
            decreases studios.len() - i,
        {
            let name = normalized_text("work.studio", studios[i].as_str());
            match name {
                Ok(n) => names.push(n),
                Err(e) => {
                    return Err(e);
                }
            }
            i = i + 1;
        }
        proof { use_type_invariant(&self); }
        let work = NormalizedWork { studios: names, ..self };
        proof {
            assert(work.spec_facts().studios =~= studios@.map_values(|s: String| trimmed(s@)));
        }
        Ok(work)
    }

    /// The weight of a tag whose name matches regardless of ASCII case.
    pub fn tag_weight(&self, name: &str) -> (weight: Option<Weight>)
        ensures
            match weight {
                Some(w) => exists|k: int| 0 <= k < self.spec_core().tags.len()
                    && ascii_case_equal(#[trigger] self.spec_core().tags[k].spec_name(), name@)
                    && self.spec_core().tags[k].spec_weight() == w
                    && forall|m: int| 0 <= m < k ==> !ascii_case_equal(#[trigger] self.spec_core().tags[m].spec_name(), name@),
                None => forall|k: int| 0 <= k < self.spec_core().tags.len() ==> !ascii_case_equal(#[trigger] self.spec_core().tags[k].spec_name(), name@),
            },
    {
        let mut k: usize = 0;
        while k < self.tags.len()
            invariant
                k <= self.tags@.len(),
                forall|m: int| 0 <= m < k ==> !ascii_case_equal(#[trigger] self.tags@[m].spec_name(), name@),
            decreases self.tags.len() - k,
        {
            if crate::text::eq_ignore_ascii_case(self.tags[k].name(), name) {
                assert(ascii_case_equal(self.spec_core().tags[k as int].spec_name(), name@));
                return Some(self.tags[k].weight);
            }
            k = k + 1;
        }
        None
    }
}

fn copy_ids(ids: &Vec<WorkId>) -> (copy: Vec<WorkId>)
    ensures
        copy@ == ids@,
{
    let mut copy: Vec<WorkId> = Vec::new();
    let mut i: usize = 0;
    while i < ids.len()
        invariant
            i <= ids@.len(),
            copy@ == ids@.take(i as int),
        decreases ids.len() - i,
    {
        copy.push(ids[i]);
        assert(ids@.take(i + 1) =~= ids@.take(i as int).push(ids@[i as int]));
        i = i + 1;
    }
    assert(ids@.take(ids@.len() as int) =~= ids@);
    copy
}

fn copy_tags(tags: &Vec<TagWeight>) -> (copy: Vec<TagWeight>)
    ensures
        copy@ == tags@,
{
    let mut copy: Vec<TagWeight> = Vec::new();
    let mut i: usize = 0;
    while i < tags.len()
        invariant
            i <= tags@.len(),
            copy@ == tags@.take(i as int),
        decreases tags.len() - i,
    {
        copy.push(tags[i].clone());
        assert(tags@.take(i + 1) =~= tags@.take(i as int).push(tags@[i as int]));
        i = i + 1;
    }
    assert(tags@.take(tags@.len() as int) =~= tags@);
    copy
}

fn copy_texts(texts: &Vec<String>) -> (copy: Vec<String>)
    ensures
        copy@ == texts@,
{
    let mut copy: Vec<String> = Vec::new();
    let mut i: usize = 0;
    while i < texts.len()
        invariant
            i <= texts@.len(),
            copy@ == texts@.take(i as int),
        decreases texts.len() - i,
    {
        copy.push(texts[i].clone());
        assert(texts@.take(i + 1) =~= texts@.take(i as int).push(texts@[i as int]));
        i = i + 1;
    }
    assert(texts@.take(texts@.len() as int) =~= texts@);
    copy
}

impl View for NormalizedWork {
    type V = (WorkCore, WorkFacts);

    /// Everything a work states: its core and its catalog facts.
    open spec fn view(&self) -> (WorkCore, WorkFacts) {
        (self.spec_core(), self.spec_facts())
    }
}

impl Clone for NormalizedWork {
    fn clone(&self) -> (copy: Self)
        ensures
            copy@ == self@,
    {
        proof { use_type_invariant(self); }
        let franchise = match &self.franchise {
            Some(f) => Some(f.clone()),
            None => None,
        };
        NormalizedWork {
            id: self.id,
            title: self.title.clone(),
            global_score: self.global_score,
            tags: copy_tags(&self.tags),
            runtime_minutes: self.runtime_minutes,
            format: self.format,
            release_year: self.release_year,
            available: self.available,
            prerequisites: copy_ids(&self.prerequisites),
            franchise,
            studios: copy_texts(&self.studios),
        }
    }
}

/// `str::eq_ignore_ascii_case`: equal once ASCII capitals are lowered.
pub open spec fn ascii_case_equal(a: Seq<char>, b: Seq<char>) -> bool {
    a.len() == b.len() && forall|i: int| 0 <= i < a.len() ==> ascii_lower_char(#[trigger] a[i]) == ascii_lower_char(b[i])
}


// ---------------------------------------------------------------- ratings

/// The position of an axis in the declaration order (its `Ord`).
pub open spec fn axis_rank(axis: PersonalAxis) -> u64 {
    match axis {
        PersonalAxis::Story => 0,
        PersonalAxis::Characters => 1,
        PersonalAxis::WorldBuilding => 2,
        PersonalAxis::VisualDirection => 3,
        PersonalAxis::SoundAndMusic => 4,
    }
}

/// Computes [`axis_rank`].
pub fn axis_rank_of(axis: PersonalAxis) -> (rank: u64)
    ensures
        rank == axis_rank(axis),
{
    match axis {
        PersonalAxis::Story => 0,
        PersonalAxis::Characters => 1,
        PersonalAxis::WorldBuilding => 2,
        PersonalAxis::VisualDirection => 3,
        PersonalAxis::SoundAndMusic => 4,
    }
}

/// A positive credit given to a personal axis for a work.
#[derive(Debug, Clone, Copy, PartialEq)]
pub struct AspectCredit {
    axis: PersonalAxis,
    credit: Weight,
}

impl AspectCredit {
    /// The axis.
    pub closed spec fn spec_axis(self) -> PersonalAxis {
        self.axis
    }

    /// The credit.
    pub closed spec fn spec_credit(self) -> Weight {
        self.credit
    }

    /// Builds a credit; a zero credit is refused.
    pub fn new(axis: PersonalAxis, credit: Weight) -> (result: Result<AspectCredit, DomainError>)
        ensures
            is_zero(credit.spec_bits()) ==> result == Err::<AspectCredit, DomainError>(DomainError::InvalidValue {
                field: "aspect_credit.credit",
                reason: "must be greater than zero",
            }),
            !is_zero(credit.spec_bits()) ==> (result matches Ok(a) && a.spec_axis() == axis && a.spec_credit() == credit),
    {
        if crate::ieee::zero(credit.get()) {
            return Err(DomainError::InvalidValue { field: "aspect_credit.credit", reason: "must be greater than zero" });
        }
        Ok(AspectCredit { axis, credit })
    }

    /// The axis.
    pub fn axis(&self) -> (axis: PersonalAxis)
        ensures
            axis == self.spec_axis(),
    {
        self.axis
    }

    /// The credit.
    pub fn credit(&self) -> (credit: Weight)
        ensures
            credit == self.spec_credit(),
    {
        self.credit
    }
}

/// `j` is the first credit whose axis repeats an earlier credit's axis.
pub open spec fn is_first_repeated_axis(aspects: Seq<AspectCredit>, j: int) -> bool {
    &&& 0 <= j < aspects.len()
    &&& exists|i: int| 0 <= i < j && aspects[i].spec_axis() == aspects[j].spec_axis()
    &&& forall|a: int, b: int| 0 <= a < b < j ==> aspects[a].spec_axis() != aspects[b].spec_axis()
}

/// No two credits share an axis.
pub open spec fn axes_distinct(aspects: Seq<AspectCredit>) -> bool {
    forall|a: int, b: int| 0 <= a < b < aspects.len() ==> aspects[a].spec_axis() != aspects[b].spec_axis()
}

/// The credits are in axis order.
pub open spec fn aspects_sorted(aspects: Seq<AspectCredit>) -> bool {
    forall|i: int, j: int| 0 <= i < j < aspects.len() ==> axis_rank(#[trigger] aspects[i].spec_axis()) <= axis_rank(#[trigger] aspects[j].spec_axis())
}

/// A personal rating with the credits given to its axes.
#[derive(Debug, Clone, PartialEq)]
pub struct RatingRecord {
    work_id: WorkId,
    rating: Rating,
    aspects: Vec<AspectCredit>,
}

impl RatingRecord {
    /// The rated work.
    pub closed spec fn spec_work_id(self) -> WorkId {
        self.work_id
    }

    /// The rating.
    pub closed spec fn spec_rating(self) -> Rating {
        self.rating
    }

    /// The credits, in axis order.
    pub closed spec fn spec_aspects(self) -> Seq<AspectCredit> {
        self.aspects@
    }

    /// Builds a rating record; two credits may not target the same axis, and
    /// the credits are put in axis order.
    pub fn new(work_id: WorkId, rating: Rating, aspects: Vec<AspectCredit>) -> (result: Result<RatingRecord, DomainError>)
        ensures
            axes_distinct(aspects@) ==> (result matches Ok(r) && r.spec_work_id() == work_id
                && r.spec_rating() == rating && aspects_sorted(r.spec_aspects())
                && r.spec_aspects().to_multiset() =~= aspects@.to_multiset()),
            !axes_distinct(aspects@) ==> exists|j: int| #[trigger] is_first_repeated_axis(aspects@, j)
                && result == Err::<RatingRecord, DomainError>(DomainError::DuplicateAxis(aspects@[j].spec_axis())),
    {
        let mut j: usize = 0;
        while j < aspects.len()
            invariant
                j <= aspects.len(),
                forall|a: int, b: int| 0 <= a < b < j ==> aspects@[a].spec_axis() != aspects@[b].spec_axis(),
            decreases aspects.len() - j,
        {
            let mut i: usize = 0;
            while i < j
                invariant
                    j < aspects.len(),
                    i <= j,
                    forall|a: int, b: int| 0 <= a < b < j ==> aspects@[a].spec_axis() != aspects@[b].spec_axis(),
                    forall|k: int| 0 <= k < i ==> aspects@[k].spec_axis() != aspects@[j as int].spec_axis(),
                decreases j - i,
            {
                if aspects[i].axis == aspects[j].axis {
                    assert(is_first_repeated_axis(aspects@, j as int));
                    return Err(DomainError::DuplicateAxis(aspects[j].axis));
                }
                i = i + 1;
            }
            j = j + 1;
        }
        let mut keyed: Vec<((u64, u64, u64), AspectCredit)> = Vec::new();
        let mut k: usize = 0;
        while k < aspects.len()
            invariant
                k <= aspects.len(),
                keyed@.len() == k,
                forall|m: int| 0 <= m < k ==> #[trigger] keyed@[m] == ((axis_rank(aspects@[m].spec_axis()), 0u64, 0u64), aspects@[m]),
            decreases aspects.len() - k,
        {
            keyed.push(((axis_rank_of(aspects[k].axis), 0, 0), aspects[k]));
            k = k + 1;
        }
        let ghost keyed_view = keyed@;
        let sorted = crate::sort::sort_by_key(keyed);
        let ghost sorted_view = sorted@;
        let ordered = crate::sort::strip_keys(sorted);
        proof {
            assert(aspects@ =~= crate::sort::items_of(keyed_view));
            crate::sort::lemma_map_multiset(sorted_view, keyed_view, |p: ((u64, u64, u64), AspectCredit)| p.1);
            assert forall|i: int, j2: int| 0 <= i < j2 < ordered@.len() implies axis_rank(#[trigger] ordered@[i].spec_axis()) <= axis_rank(#[trigger] ordered@[j2].spec_axis()) by {
                assert(!crate::sort::key_less(sorted_view[j2].0, sorted_view[i].0));
                let a = crate::sort::lemma_member_of_permutation(sorted_view, keyed_view, i);
                let b = crate::sort::lemma_member_of_permutation(sorted_view, keyed_view, j2);
                assert(keyed_view[a] == ((axis_rank(aspects@[a].spec_axis()), 0u64, 0u64), aspects@[a]));
                assert(keyed_view[b] == ((axis_rank(aspects@[b].spec_axis()), 0u64, 0u64), aspects@[b]));
            }
        }
        Ok(RatingRecord { work_id, rating, aspects: ordered })
    }
}

impl RatingRecord {
    /// The rated work.
    pub fn work_id(&self) -> (id: WorkId)
        ensures
            id == self.spec_work_id(),
    {
        self.work_id
    }

    /// The rating.
    pub fn rating(&self) -> (rating: Rating)
        ensures
            rating == self.spec_rating(),
    {
        self.rating
    }

    /// The credits, in axis order.
    pub fn aspects(&self) -> (aspects: &[AspectCredit])
        ensures
            aspects@ == self.spec_aspects(),
    {
        self.aspects.as_slice()
    }

    /// The credit given to an axis, if any.
    pub fn credit_for(&self, axis: PersonalAxis) -> (credit: Option<Weight>)
        ensures
            match credit {
                Some(c) => exists|k: int| 0 <= k < self.spec_aspects().len()
                    && #[trigger] self.spec_aspects()[k].spec_axis() == axis
                    && self.spec_aspects()[k].spec_credit() == c
                    && forall|m: int| 0 <= m < k ==> #[trigger] self.spec_aspects()[m].spec_axis() != axis,
                None => forall|k: int| 0 <= k < self.spec_aspects().len() ==> #[trigger] self.spec_aspects()[k].spec_axis() != axis,
            },
    {
        let mut k: usize = 0;
        while k < self.aspects.len()
            invariant
                k <= self.aspects@.len(),
                forall|m: int| 0 <= m < k ==> #[trigger] self.aspects@[m].spec_axis() != axis,
            decreases self.aspects.len() - k,
        {
            if self.aspects[k].axis == axis {
                assert(self.spec_aspects()[k as int].spec_axis() == axis);
                return Some(self.aspects[k].credit);
            }
            k = k + 1;
        }
        None
    }
}

// ---------------------------------------------------------------- viewing events

/// How far into a work it was dropped; the position is below the total.
#[derive(Debug, Clone, Copy, PartialEq, Eq, Structural)]
pub struct DropProgress {
    position: u32,
    total: u32,
}

impl DropProgress {
    /// The episode at which the work was dropped.
    pub closed spec fn spec_position(self) -> u32 {
        self.position
    }

    /// The number of episodes.
    pub closed spec fn spec_total(self) -> u32 {
        self.total
    }

    #[verifier::type_invariant]
    closed spec fn valid(self) -> bool {
        self.position < self.total
    }

    /// Builds a progress; the total must be positive and the position below it.
    pub fn new(position: u32, total: u32) -> (result: Result<DropProgress, DomainError>)
        ensures
            total == 0 ==> result == Err::<DropProgress, DomainError>(DomainError::InvalidValue {
                field: "drop_progress.total",
                reason: "must be greater than zero",
            }),
            total > 0 && position >= total ==> result == Err::<DropProgress, DomainError>(DomainError::InvalidValue {
                field: "drop_progress.position",
                reason: "must be lower than total",
            }),
            position < total ==> (result matches Ok(p) && p.spec_position() == position && p.spec_total() == total),
    {
        if total == 0 {
            return Err(DomainError::InvalidValue { field: "drop_progress.total", reason: "must be greater than zero" });
        }
        if position >= total {
            return Err(DomainError::InvalidValue { field: "drop_progress.position", reason: "must be lower than total" });
        }
        Ok(DropProgress { position, total })
    }

    /// The episode at which the work was dropped.
    pub fn position(self) -> (position: u32)
        ensures
            position == self.spec_position(),
            position < self.spec_total(),
    {
        proof { use_type_invariant(&self); }
        self.position
    }

    /// The number of episodes.
    pub fn total(self) -> (total: u32)
        ensures
            total == self.spec_total(),
            total > self.spec_position(),
    {
        proof { use_type_invariant(&self); }
        self.total
    }

    /// Two progresses are the same value exactly when their positions and totals are.
    pub proof fn lemma_progress_injective(a: DropProgress, b: DropProgress)
        ensures
            (a.spec_position() == b.spec_position() && a.spec_total() == b.spec_total()) <==> a == b,
    {
    }
}

/// A viewing event; each kind carries only what it needs.
#[derive(Debug, Clone, Copy, PartialEq, Eq, Structural)]
pub enum WatchEvent {
    Completed { work_id: WorkId },
    Dropped { work_id: WorkId, progress: DropProgress },
    Rewatched { work_id: WorkId },
}

/// The work an event is about.
pub open spec fn event_work(event: WatchEvent) -> WorkId {
    match event {
        WatchEvent::Completed { work_id } => work_id,
        WatchEvent::Dropped { work_id, .. } => work_id,
        WatchEvent::Rewatched { work_id } => work_id,
    }
}

impl WatchEvent {
    /// A completed viewing.
    pub fn completed(work_id: WorkId) -> (event: WatchEvent)
        ensures
            event == (WatchEvent::Completed { work_id }),
    {
        WatchEvent::Completed { work_id }
    }

    /// A dropped viewing.
    pub fn dropped(work_id: WorkId, progress: DropProgress) -> (event: WatchEvent)
        ensures
            event == (WatchEvent::Dropped { work_id, progress }),
    {
        WatchEvent::Dropped { work_id, progress }
    }

    /// A second or later viewing.
    pub fn rewatched(work_id: WorkId) -> (event: WatchEvent)
        ensures
            event == (WatchEvent::Rewatched { work_id }),
    {
        WatchEvent::Rewatched { work_id }
    }

    /// The work the event is about.
    pub fn work_id(&self) -> (id: WorkId)
        ensures
            id == event_work(*self),
    {
        match self {
            WatchEvent::Completed { work_id } => *work_id,
            WatchEvent::Dropped { work_id, .. } => *work_id,
            WatchEvent::Rewatched { work_id } => *work_id,
        }
    }

    /// The progress of a drop; nothing for the other kinds.
    pub fn drop_progress(&self) -> (progress: Option<DropProgress>)
        ensures
            match *self {
                WatchEvent::Dropped { progress: p, .. } => progress == Some(p),
                _ => progress is None,
            },
    {
        match self {
            WatchEvent::Dropped { progress, .. } => Some(*progress),
            _ => None,
        }
    }
}

// ---------------------------------------------------------------- contributions

/// The computable origin of a contribution to a recommendation score.
#[derive(Debug, Clone, Copy, PartialEq, Eq, Structural)]
pub enum ContributionSource {
    TagAffinity,
    PoleSimilarity,
    AnilistPrior,
    PersonalAxis { axis: PersonalAxis },
    Penalty,
}

/// An atomic, explainable contribution to a score.
#[derive(Debug, PartialEq)]
pub struct Contribution {
    source: ContributionSource,
    value: ScoreDelta,
    detail: String,
}

impl Contribution {
    /// The origin.
    pub closed spec fn spec_source(self) -> ContributionSource {
        self.source
    }

    /// The signed value.
    pub closed spec fn spec_value(self) -> ScoreDelta {
        self.value
    }

    /// The explanation.
    pub closed spec fn spec_detail(self) -> Seq<char> {
        self.detail@
    }

    /// Builds a contribution; the explanation is trimmed and must not be empty.
    pub fn new(source: ContributionSource, value: ScoreDelta, detail: String) -> (result: Result<Contribution, DomainError>)
        ensures
            match text_check("contribution.detail", detail@) {
                Err(e) => result == Err::<Contribution, DomainError>(e),
                Ok(t) => result matches Ok(c) && c.spec_source() == source && c.spec_value() == value
                    && c.spec_detail() == t,
            },
    {
        let detail = normalized_text("contribution.detail", detail.as_str())?;
        Ok(Contribution { source, value, detail })
    }

    /// The origin.
    pub fn source(&self) -> (source: ContributionSource)
        ensures
            source == self.spec_source(),
    {
        self.source
    }

    /// The signed value.
    pub fn value(&self) -> (value: ScoreDelta)
        ensures
            value == self.spec_value(),
    {
        self.value
    }

    /// The explanation.
    pub fn detail(&self) -> (detail: &str)
        ensures
            detail@ == self.spec_detail(),
    {
        self.detail.as_str()
    }
}

impl Clone for Contribution {
    fn clone(&self) -> (copy: Self)
        ensures
            copy == *self,
    {
        Contribution { source: self.source, value: self.value, detail: self.detail.clone() }
    }
}

/// The name `{:?}` gives an axis.
pub open spec fn axis_debug_name(axis: PersonalAxis) -> Seq<char> {
    match axis {
        PersonalAxis::Story => "Story"@,
        PersonalAxis::Characters => "Characters"@,
        PersonalAxis::WorldBuilding => "WorldBuilding"@,
        PersonalAxis::VisualDirection => "VisualDirection"@,
        PersonalAxis::SoundAndMusic => "SoundAndMusic"@,
    }
}

/// The message of a domain error.
pub open spec fn domain_message(e: DomainError) -> Seq<char> {
    match e {
        DomainError::InvalidValue { field, reason } => "invalid "@ + field@ + ": "@ + reason@,
        DomainError::EmptyText { field } => field@ + " must not be empty"@,
        DomainError::DuplicateTag(tag) => "duplicate tag: "@ + tag@,
        DomainError::DuplicateAxis(axis) => "duplicate personal axis: "@ + axis_debug_name(axis),
    }
}

impl DomainError {
    /// The message of the error.
    pub fn message(&self) -> (text: String)
        ensures
            text@ == domain_message(*self),
    {
        match self {
            DomainError::InvalidValue { field, reason } => {
                let mut text = String::from_str("invalid ");
                text.append(field);
                text.append(": ");
                text.append(reason);
                text
            },
            DomainError::EmptyText { field } => {
                let mut text = String::from_str(field);
                text.append(" must not be empty");
                text
            },
            DomainError::DuplicateTag(tag) => {
                let mut text = String::from_str("duplicate tag: ");
                text.append(tag.as_str());
                text
            },
            DomainError::DuplicateAxis(axis) => {
                let mut text = String::from_str("duplicate personal axis: ");
                let name = match axis {
                    PersonalAxis::Story => "Story",
                    PersonalAxis::Characters => "Characters",
                    PersonalAxis::WorldBuilding => "WorldBuilding",
                    PersonalAxis::VisualDirection => "VisualDirection",
                    PersonalAxis::SoundAndMusic => "SoundAndMusic",
                };
                text.append(name);
                text
            },
        }
    }
}

} // verus!
