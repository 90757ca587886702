//! The caps of the diversified final list and the feasibility search that
//! keeps the requested size whenever the caps allow it.
//!
//! A franchise, a studio or a dominant tag may appear at most a configured
//! number of times. Names are compared by their lowercase form. The search
//! for a selection that respects the caps is exact; the maximal marginal
//! relevance that orders the candidates is a binary64 computation left to
//! the caller, which hands over the order it obtained.

use vstd::prelude::*;
use crate::domain::{NormalizedWork, Ratio, TagWeight, WorkId, tags_sorted, keys_distinct, tag_keys};
use crate::ieee::total_order_key;
use crate::scoring::{ScoringError, scoring_message};
use crate::sort::{key_less, items_of};
use crate::text::{decimal_of, lowercase_of, lex_less};

verus! {

broadcast use vstd::seq_lib::group_to_multiset_ensures;

/// A configuration failure, or a failure of the scoring that feeds the selection.
#[derive(Debug, Clone, PartialEq)]
pub enum DiversificationError {
    InvalidConfiguration { field: &'static str, reason: &'static str },
    MissingScoredCandidate { work_id: WorkId },
    Scoring(ScoringError),
}

/// The role of a recommendation in the final list.
#[derive(Debug, Clone, Copy, PartialEq, Eq, Structural)]
pub enum RecommendationKind {
    Safe,
    Exploration,
}

/// The deterministic signal that justifies an exploration bet.
#[derive(Debug, Clone, Copy, PartialEq, Eq, Structural)]
pub enum ExplorationSignal {
    UncertainTags,
    PoleDisagreement,
}

/// The explicit label of an exploration bet.
#[derive(Debug, Clone, PartialEq)]
pub struct ExplorationLabel {
    signal: ExplorationSignal,
    strength: Ratio,
    text: String,
}

impl ExplorationLabel {
    /// The signal behind the bet.
    pub closed spec fn spec_signal(self) -> ExplorationSignal {
        self.signal
    }

    /// How strong the signal is.
    pub closed spec fn spec_strength(self) -> Ratio {
        self.strength
    }

    /// The sentence shown with the bet.
    pub closed spec fn spec_text(self) -> Seq<char> {
        self.text@
    }

    /// Labels a bet.
    pub fn new(signal: ExplorationSignal, strength: Ratio, text: String) -> (label: ExplorationLabel)
        ensures
            label.spec_signal() == signal,
            label.spec_strength() == strength,
            label.spec_text() == text@,
    {
        ExplorationLabel { signal, strength, text }
    }

    /// The signal behind the bet.
    pub fn signal(&self) -> (signal: ExplorationSignal)
        ensures
            signal == self.spec_signal(),
    {
        self.signal
    }

    /// How strong the signal is.
    pub fn strength(&self) -> (strength: Ratio)
        ensures
            strength == self.spec_strength(),
    {
        self.strength
    }

    /// The sentence shown with the bet.
    pub fn text(&self) -> (text: &str)
        ensures
            text@ == self.spec_text(),
    {
        self.text.as_str()
    }
}

/// The settings of the diversified selection, as plain values.
pub ghost struct DiversificationView {
    pub safe_count: nat,
    pub exploration_count: nat,
    pub mmr_relevance_weight: Ratio,
    pub max_per_franchise: nat,
    pub max_per_studio: nat,
    pub max_per_dominant_tag: nat,
    pub dominant_tags_per_work: nat,
}

/// Validated settings of the diversified selection.
#[derive(Debug, Clone, Copy, PartialEq)]
pub struct DiversificationConfig {
    safe_count: usize,
    exploration_count: usize,
    mmr_relevance_weight: Ratio,
    max_per_franchise: usize,
    max_per_studio: usize,
    max_per_dominant_tag: usize,
    dominant_tags_per_work: usize,
}

impl View for DiversificationConfig {
    type V = DiversificationView;

    closed spec fn view(&self) -> DiversificationView {
        DiversificationView {
            safe_count: self.safe_count as nat,
            exploration_count: self.exploration_count as nat,
            mmr_relevance_weight: self.mmr_relevance_weight,
            max_per_franchise: self.max_per_franchise as nat,
            max_per_studio: self.max_per_studio as nat,
            max_per_dominant_tag: self.max_per_dominant_tag as nat,
            dominant_tags_per_work: self.dominant_tags_per_work as nat,
        }
    }
}

/// The outcome of validating the settings, checks taken in order.
pub open spec fn diversification_check(
    safe_count: nat,
    exploration_count: nat,
    max_per_franchise: nat,
    max_per_studio: nat,
    max_per_dominant_tag: nat,
    dominant_tags_per_work: nat,
) -> Result<(), DiversificationError> {
    if safe_count == 0 && exploration_count == 0 {
        Err(DiversificationError::InvalidConfiguration {
            field: "safe_count,exploration_count",
            reason: "at least one requested count must be greater than zero",
        })
    } else if safe_count + exploration_count > usize::MAX {
        Err(DiversificationError::InvalidConfiguration {
            field: "safe_count,exploration_count",
            reason: "requested size is too large",
        })
    } else if max_per_franchise == 0 {
        Err(DiversificationError::InvalidConfiguration { field: "max_per_franchise", reason: "must be greater than zero" })
    } else if max_per_studio == 0 {
        Err(DiversificationError::InvalidConfiguration { field: "max_per_studio", reason: "must be greater than zero" })
    } else if max_per_dominant_tag == 0 {
        Err(DiversificationError::InvalidConfiguration { field: "max_per_dominant_tag", reason: "must be greater than zero" })
    } else if dominant_tags_per_work == 0 {
        Err(DiversificationError::InvalidConfiguration { field: "dominant_tags_per_work", reason: "must be greater than zero" })
    } else {
        Ok(())
    }
}

/// The pattern of `0.75`, the default weight of relevance in the marginal relevance.
pub const MMR_RELEVANCE_BITS: u64 = 0x3FE8_0000_0000_0000;

impl DiversificationConfig {
    /// Validates the settings: at least one requested count, a total size
    /// that fits, and caps and a dominant tag count that are not zero.
    pub fn new(
        safe_count: usize,
        exploration_count: usize,
        mmr_relevance_weight: Ratio,
        max_per_franchise: usize,
        max_per_studio: usize,
        max_per_dominant_tag: usize,
        dominant_tags_per_work: usize,
    ) -> (result: Result<DiversificationConfig, DiversificationError>)
        ensures
            match diversification_check(
                safe_count as nat,
                exploration_count as nat,
                max_per_franchise as nat,
                max_per_studio as nat,
                max_per_dominant_tag as nat,
                dominant_tags_per_work as nat,
            ) {
                Err(e) => result == Err::<DiversificationConfig, DiversificationError>(e),
                Ok(_) => result matches Ok(c) && c@ == (DiversificationView {
                    safe_count: safe_count as nat,
                    exploration_count: exploration_count as nat,
                    mmr_relevance_weight,
                    max_per_franchise: max_per_franchise as nat,
                    max_per_studio: max_per_studio as nat,
                    max_per_dominant_tag: max_per_dominant_tag as nat,
                    dominant_tags_per_work: dominant_tags_per_work as nat,
                }),
            },
    {
        if safe_count == 0 && exploration_count == 0 {
            return Err(DiversificationError::InvalidConfiguration {
                field: "safe_count,exploration_count",
                reason: "at least one requested count must be greater than zero",
            });
        }
        if safe_count.checked_add(exploration_count).is_none() {
            return Err(DiversificationError::InvalidConfiguration {
                field: "safe_count,exploration_count",
                reason: "requested size is too large",
            });
        }
        if max_per_franchise == 0 {
            return Err(DiversificationError::InvalidConfiguration { field: "max_per_franchise", reason: "must be greater than zero" });
        }
        if max_per_studio == 0 {
            return Err(DiversificationError::InvalidConfiguration { field: "max_per_studio", reason: "must be greater than zero" });
        }
        if max_per_dominant_tag == 0 {
            return Err(DiversificationError::InvalidConfiguration { field: "max_per_dominant_tag", reason: "must be greater than zero" });
        }
        if dominant_tags_per_work == 0 {
            return Err(DiversificationError::InvalidConfiguration { field: "dominant_tags_per_work", reason: "must be greater than zero" });
        }
        Ok(DiversificationConfig {
            safe_count,
            exploration_count,
            mmr_relevance_weight,
            max_per_franchise,
            max_per_studio,
            max_per_dominant_tag,
            dominant_tags_per_work,
        })
    }

    /// The number of safe recommendations requested.
    pub fn safe_count(&self) -> (count: usize)
        ensures
            count == self@.safe_count,
    {
        self.safe_count
    }

    /// The number of exploration bets requested.
    pub fn exploration_count(&self) -> (count: usize)
        ensures
            count == self@.exploration_count,
    {
        self.exploration_count
    }

    /// The weight of relevance against redundancy.
    pub fn mmr_relevance_weight(&self) -> (weight: Ratio)
        ensures
            weight == self@.mmr_relevance_weight,
    {
        self.mmr_relevance_weight
    }

    /// The cap per franchise.
    pub fn max_per_franchise(&self) -> (cap: usize)
        ensures
            cap == self@.max_per_franchise,
    {
        self.max_per_franchise
    }

    /// The cap per studio.
    pub fn max_per_studio(&self) -> (cap: usize)
        ensures
            cap == self@.max_per_studio,
    {
        self.max_per_studio
    }

    /// The cap per dominant tag.
    pub fn max_per_dominant_tag(&self) -> (cap: usize)
        ensures
            cap == self@.max_per_dominant_tag,
    {
        self.max_per_dominant_tag
    }

    /// The number of heaviest tags that count as a work's dominant tags.
    pub fn dominant_tags_per_work(&self) -> (count: usize)
        ensures
            count == self@.dominant_tags_per_work,
    {
        self.dominant_tags_per_work
    }
}

impl Default for DiversificationConfig {
    /// The V1 settings: eight safe choices, two bets, relevance weighted
    /// `0.75`, one work per franchise, two per studio, three per dominant
    /// tag, two dominant tags per work.
    fn default() -> (config: Self)
        ensures
            config@.safe_count == 8,
            config@.exploration_count == 2,
            config@.mmr_relevance_weight.spec_bits() == MMR_RELEVANCE_BITS,
            config@.max_per_franchise == 1,
            config@.max_per_studio == 2,
            config@.max_per_dominant_tag == 3,
            config@.dominant_tags_per_work == 2,
    {
        let weight = match Ratio::new(MMR_RELEVANCE_BITS) {
            Ok(w) => w,
            Err(_) => vstd::pervasive::unreached(),
        };
        DiversificationConfig {
            safe_count: 8,
            exploration_count: 2,
            mmr_relevance_weight: weight,
            max_per_franchise: 1,
            max_per_studio: 2,
            max_per_dominant_tag: 3,
            dominant_tags_per_work: 2,
        }
    }
}

// ---------------------------------------------------------------- counts per name

/// What an entry adds to the count of a key.
pub open spec fn entry_count(entry: (String, usize), key: Seq<char>) -> nat {
    if entry.0@ == key { entry.1 as nat } else { 0 }
}

/// The count of a key over a list of entries.
pub open spec fn count_in(entries: Seq<(String, usize)>, key: Seq<char>) -> nat
    decreases entries.len(),
{
    if entries.len() == 0 {
        0
    } else {
        count_in(entries.drop_last(), key) + entry_count(entries.last(), key)
    }
}

proof fn lemma_count_push(entries: Seq<(String, usize)>, entry: (String, usize), key: Seq<char>)
    ensures
        count_in(entries.push(entry), key) == count_in(entries, key) + entry_count(entry, key),
{
    assert(entries.push(entry).drop_last() =~= entries);
}

proof fn lemma_count_remove(entries: Seq<(String, usize)>, i: int, key: Seq<char>)
    requires
        0 <= i < entries.len(),
    ensures
        count_in(entries.remove(i), key) + entry_count(entries[i], key) == count_in(entries, key),
    decreases entries.len(),
{
    if i == entries.len() - 1 {
        assert(entries.remove(i) =~= entries.drop_last());
    } else {
        lemma_count_remove(entries.drop_last(), i, key);
        assert(entries.remove(i) =~= entries.drop_last().remove(i).push(entries.last()));
        lemma_count_push(entries.drop_last().remove(i), entries.last(), key);
    }
}

proof fn lemma_count_absent(entries: Seq<(String, usize)>, key: Seq<char>)
    requires
        forall|j: int| 0 <= j < entries.len() ==> (#[trigger] entries[j]).0@ != key,
    ensures
        count_in(entries, key) == 0,
    decreases entries.len(),
{
    if entries.len() > 0 {
        lemma_count_absent(entries.drop_last(), key);
    }
}

proof fn lemma_count_single(entries: Seq<(String, usize)>, i: int, key: Seq<char>)
    requires
        0 <= i < entries.len(),
        entries[i].0@ == key,
        forall|a: int, b: int| 0 <= a < b < entries.len() ==> (#[trigger] entries[a]).0@ != (#[trigger] entries[b]).0@,
    ensures
        count_in(entries, key) == entries[i].1,
{
    lemma_count_remove(entries, i, key);
    assert forall|j: int| 0 <= j < entries.remove(i).len() implies (#[trigger] entries.remove(i)[j]).0@ != key by {
        if j < i {
            assert(entries.remove(i)[j] == entries[j]);
        } else {
            assert(entries.remove(i)[j] == entries[j + 1]);
        }
    }
    lemma_count_absent(entries.remove(i), key);
}

/// Counts per lowercase name; a name with a zero count is not kept.
///
/// The counts are keyed by text. A vector of pairs, each name at most once,
/// stands for the ordered map so that every count is a stated value.
#[derive(Debug, PartialEq)]
pub struct KeyCounts {
    entries: Vec<(String, usize)>,
}

impl KeyCounts {
    #[verifier::type_invariant]
    closed spec fn well_formed(self) -> bool {
        &&& forall|a: int, b: int| 0 <= a < b < self.entries@.len() ==> (#[trigger] self.entries@[a]).0@ != (#[trigger] self.entries@[b]).0@
        &&& forall|i: int| 0 <= i < self.entries@.len() ==> (#[trigger] self.entries@[i]).1 > 0
    }

    /// The count of a (lowercase) key.
    pub closed spec fn spec_count(self, key: Seq<char>) -> nat {
        count_in(self.entries@, key)
    }

    /// No name counted yet.
    pub fn new() -> (counts: KeyCounts)
        ensures
            forall|key: Seq<char>| #[trigger] counts.spec_count(key) == 0,
    {
        KeyCounts { entries: Vec::new() }
    }

    fn position(&self, key: &str) -> (found: Option<usize>)
        ensures
            match found {
                Some(i) => i < self.entries@.len() && self.entries@[i as int].0@ == key@,
                None => forall|j: int| 0 <= j < self.entries@.len() ==> (#[trigger] self.entries@[j]).0@ != key@,
            },
    {
        let mut i: usize = 0;
        while i < self.entries.len()
            invariant
                i <= self.entries@.len(),
                forall|j: int| 0 <= j < i ==> (#[trigger] self.entries@[j]).0@ != key@,
            decreases self.entries.len() - i,
        {
            if crate::text::text_equals(self.entries[i].0.as_str(), key) {
                return Some(i);
            }
            i = i + 1;
        }
        None
    }
}

impl Default for KeyCounts {
    /// No name counted yet.
    fn default() -> (counts: Self)
        ensures
            forall|key: Seq<char>| #[trigger] counts.spec_count(key) == 0,
    {
        KeyCounts::new()
    }
}

/// The key under which a name is counted: its lowercase form.
pub fn normalized_key(value: &str) -> (key: String)
    ensures
        key@ == lowercase_of(value@),
{
    crate::text::lowercase(value)
}

/// The count of a name.
pub fn count(counts: &KeyCounts, key: &str) -> (n: usize)
    ensures
        n == counts.spec_count(lowercase_of(key@)),
{
    proof { use_type_invariant(counts); }
    let normalized = normalized_key(key);
    match counts.position(normalized.as_str()) {
        Some(i) => {
            proof { lemma_count_single(counts.entries@, i as int, normalized@); }
            counts.entries[i].1
        },
        None => {
            proof { lemma_count_absent(counts.entries@, normalized@); }
            0
        },
    }
}

/// Counts one more occurrence of a name.
pub fn increment(counts: &mut KeyCounts, key: &str)
    requires
        old(counts).spec_count(lowercase_of(key@)) < usize::MAX,
    ensures
        forall|k: Seq<char>| #[trigger] final(counts).spec_count(k)
            == old(counts).spec_count(k) + if k == lowercase_of(key@) { 1nat } else { 0nat },
{
    proof { use_type_invariant(&*counts); }
    let normalized = normalized_key(key);
    let ghost before = counts.entries@;
    let found = counts.position(normalized.as_str());
    let mut entries: Vec<(String, usize)> = Vec::new();
    std::mem::swap(&mut entries, &mut counts.entries);
    match found {
        Some(i) => {
            proof { lemma_count_single(before, i as int, normalized@); }
            let (name, n) = entries.remove(i);
            proof {
                assert forall|a: int, b: int| 0 <= a < b < entries@.len() implies (#[trigger] entries@[a]).0@ != (#[trigger] entries@[b]).0@ by {
                    let a0 = if a < i { a } else { a + 1 };
                    let b0 = if b < i { b } else { b + 1 };
                    assert(entries@[a] == before[a0]);
                    assert(entries@[b] == before[b0]);
                }
                assert forall|j: int| 0 <= j < entries@.len() implies (#[trigger] entries@[j]).0@ != name@ by {
                    let j0 = if j < i { j } else { j + 1 };
                    assert(entries@[j] == before[j0]);
                }
                assert forall|j: int| 0 <= j < entries@.len() implies (#[trigger] entries@[j]).1 > 0 by {
                    let j0 = if j < i { j } else { j + 1 };
                    assert(entries@[j] == before[j0]);
                }
            }
            entries.push((name, n + 1));
            proof {
                assert forall|k: Seq<char>| #[trigger] count_in(entries@, k)
                    == count_in(before, k) + if k == normalized@ { 1nat } else { 0nat } by {
                    lemma_count_remove(before, i as int, k);
                    lemma_count_push(before.remove(i as int), (name, (n + 1) as usize), k);
                }
            }
        },
        None => {
            proof { lemma_count_absent(before, normalized@); }
            entries.push((normalized, 1));
            proof {
                assert forall|k: Seq<char>| #[trigger] count_in(entries@, k)
                    == count_in(before, k) + if k == lowercase_of(key@) { 1nat } else { 0nat } by {
                    lemma_count_push(before, (normalized, 1usize), k);
                }
            }
        },
    }
    *counts = KeyCounts { entries };
}

/// Counts one occurrence of a name less; the name is dropped at zero.
pub fn decrement(counts: &mut KeyCounts, key: &str)
    requires
        old(counts).spec_count(lowercase_of(key@)) > 0,
    ensures
        forall|k: Seq<char>| #[trigger] final(counts).spec_count(k) + (if k == lowercase_of(key@) { 1nat } else { 0nat })
            == old(counts).spec_count(k),
{
    proof { use_type_invariant(&*counts); }
    let normalized = normalized_key(key);
    let ghost before = counts.entries@;
    let found = counts.position(normalized.as_str());
    let mut entries: Vec<(String, usize)> = Vec::new();
    std::mem::swap(&mut entries, &mut counts.entries);
    match found {
        Some(i) => {
            proof { lemma_count_single(before, i as int, normalized@); }
            let (name, n) = entries.remove(i);
            proof {
                assert forall|a: int, b: int| 0 <= a < b < entries@.len() implies (#[trigger] entries@[a]).0@ != (#[trigger] entries@[b]).0@ by {
                    let a0 = if a < i { a } else { a + 1 };
                    let b0 = if b < i { b } else { b + 1 };
                    assert(entries@[a] == before[a0]);
                    assert(entries@[b] == before[b0]);
                }
                assert forall|j: int| 0 <= j < entries@.len() implies (#[trigger] entries@[j]).0@ != name@ by {
                    let j0 = if j < i { j } else { j + 1 };
                    assert(entries@[j] == before[j0]);
                }
                assert forall|j: int| 0 <= j < entries@.len() implies (#[trigger] entries@[j]).1 > 0 by {
                    let j0 = if j < i { j } else { j + 1 };
                    assert(entries@[j] == before[j0]);
                }
            }
            if n > 1 {
                entries.push((name, n - 1));
                proof {
                    assert forall|k: Seq<char>| #[trigger] count_in(entries@, k) + (if k == normalized@ { 1nat } else { 0nat })
                        == count_in(before, k) by {
                        lemma_count_remove(before, i as int, k);
                        lemma_count_push(before.remove(i as int), (name, (n - 1) as usize), k);
                    }
                }
            } else {
                proof {
                    assert forall|k: Seq<char>| #[trigger] count_in(entries@, k) + (if k == normalized@ { 1nat } else { 0nat })
                        == count_in(before, k) by {
                        lemma_count_remove(before, i as int, k);
                    }
                }
            }
        },
        None => {
            proof { lemma_count_absent(before, normalized@); }
        },
    }
    *counts = KeyCounts { entries };
}

// ---------------------------------------------------------------- dominant tags

/// A tag weighs more than another (as `f64::total_cmp` orders weights), or
/// as much with a name that comes first.
pub open spec fn heavier(a: TagWeight, b: TagWeight) -> bool {
    let ka = total_order_key(a.spec_weight().spec_bits());
    let kb = total_order_key(b.spec_weight().spec_bits());
    ka > kb || (ka == kb && lex_less(a.spec_name(), b.spec_name()))
}

/// `order` visits every tag once, from the heaviest.
pub open spec fn is_heaviness_order(tags: Seq<TagWeight>, order: Seq<int>) -> bool {
    &&& order.len() == tags.len()
    &&& order.no_duplicates()
    &&& forall|i: int| 0 <= i < order.len() ==> 0 <= #[trigger] order[i] < tags.len()
    &&& forall|i: int, j: int| 0 <= i < j < order.len() ==> heavier(tags[#[trigger] order[i]], tags[#[trigger] order[j]])
}

/// The names of the tags visited first by an order, at most `limit` of them.
pub open spec fn leading_names(tags: Seq<TagWeight>, order: Seq<int>, limit: nat) -> Seq<Seq<char>> {
    let n = if limit < order.len() { limit } else { order.len() };
    order.take(n as int).map_values(|k: int| tags[k].spec_name())
}

/// The names of a work's heaviest tags, at most `limit` of them, heaviest first.
pub fn dominant_tags(work: &NormalizedWork, limit: usize) -> (names: Vec<String>)
    ensures
        exists|order: Seq<int>| #[trigger] is_heaviness_order(work.spec_core().tags, order)
            && names@.map_values(|s: String| s@) == leading_names(work.spec_core().tags, order, limit as nat),
{
    let tags = work.tags();
    let mut keyed: Vec<((u64, u64, u64), usize)> = Vec::new();
    let mut k: usize = 0;
    while k < tags.len()
        invariant
            k <= tags@.len(),
            keyed@.len() == k,
            forall|x: int| 0 <= x < k ==> #[trigger] keyed@[x] == (((u64::MAX - total_order_key(tags@[x].spec_weight().spec_bits())) as u64, x as u64, 0u64), x as usize),
        decreases tags.len() - k,
    {
        let key = u64::MAX - crate::ieee::total_order_key_of(tags[k].weight().get());
        keyed.push(((key, k as u64, 0), k));
        k = k + 1;
    }
    let ghost keyed_view = keyed@;
    proof {
        assert forall|a: int, b: int| 0 <= a < b < keyed_view.len() implies keyed_view[a].0 != keyed_view[b].0 by {
            assert(keyed_view[a].0.1 == a);
            assert(keyed_view[b].0.1 == b);
        }
    }
    let sorted = crate::sort::sort_by_key(keyed);
    let ghost sorted_view = sorted@;
    proof {
        crate::sort::lemma_sorted_distinct_keys(sorted_view, keyed_view);
    }
    let positions = crate::sort::strip_keys(sorted);
    let ghost order = positions@.map_values(|x: usize| x as int);
    proof {
        assert forall|i: int| 0 <= i < order.len() implies 0 <= #[trigger] order[i] < tags@.len()
            && sorted_view[i] == keyed_view[order[i]] by {
            let a = crate::sort::lemma_member_of_permutation(sorted_view, keyed_view, i);
        }
        assert forall|i: int, j: int| 0 <= i < j < order.len() implies heavier(tags@[#[trigger] order[i]], tags@[#[trigger] order[j]]) by {
            assert(key_less(sorted_view[i].0, sorted_view[j].0));
            let a = order[i];
            let b = order[j];
            assert(0 <= a < tags@.len() && 0 <= b < tags@.len());
            if total_order_key(tags@[a].spec_weight().spec_bits()) == total_order_key(tags@[b].spec_weight().spec_bits()) {
                assert(a < b);
                assert(!lex_less(tags@[b].spec_name(), tags@[a].spec_name()));
                assert(tag_keys(tags@)[a] != tag_keys(tags@)[b]);
                crate::text::lemma_lex_less_total(tags@[a].spec_name(), tags@[b].spec_name());
            }
        }
        assert forall|i: int, j: int| 0 <= i < order.len() && 0 <= j < order.len() && i != j implies order[i] != order[j] by {
            if i < j {
                assert(key_less(sorted_view[i].0, sorted_view[j].0));
            } else {
                assert(key_less(sorted_view[j].0, sorted_view[i].0));
            }
        }
        assert(order.no_duplicates());
        assert(is_heaviness_order(tags@, order));
    }
    let n = if limit < positions.len() { limit } else { positions.len() };
    let mut names: Vec<String> = Vec::new();
    let mut i: usize = 0;
    while i < n
        invariant
            n <= positions@.len(),
            positions@.len() == tags@.len(),
            order == positions@.map_values(|x: usize| x as int),
            forall|x: int| 0 <= x < positions@.len() ==> 0 <= #[trigger] order[x] < tags@.len(),
            i <= n,
            names@.len() == i,
            forall|x: int| 0 <= x < i ==> (#[trigger] names@[x])@ == tags@[order[x]].spec_name(),
        decreases n - i,
    {
        assert(0 <= order[i as int] < tags@.len());
        let name = String::from_str(tags[positions[i]].name());
        names.push(name);
        i = i + 1;
    }
    assert(names@.map_values(|s: String| s@) =~= leading_names(tags@, order, limit as nat));
    names
}

/// The names a work is capped by: its franchise, its studios and its dominant tags.
#[derive(Debug, PartialEq)]
pub struct WorkKeys {
    franchise: Option<String>,
    studios: Vec<String>,
    dominant_tags: Vec<String>,
}

/// The capped names of a work, as plain values.
pub ghost struct KeysView {
    pub franchise: Seq<Seq<char>>,
    pub studios: Seq<Seq<char>>,
    pub dominant_tags: Seq<Seq<char>>,
}

impl View for WorkKeys {
    type V = KeysView;

    closed spec fn view(&self) -> KeysView {
        KeysView {
            franchise: match self.franchise { Some(f) => seq![f@], None => Seq::empty() },
            studios: self.studios@.map_values(|s: String| s@),
            dominant_tags: self.dominant_tags@.map_values(|s: String| s@),
        }
    }
}

/// Collects the names a work is capped by.
pub fn work_keys(work: &NormalizedWork, config: &DiversificationConfig) -> (keys: WorkKeys)
    ensures
        keys@.franchise == (match work.spec_facts().franchise { Some(f) => seq![f], None => Seq::<Seq<char>>::empty() }),
        keys@.studios == work.spec_facts().studios,
        exists|order: Seq<int>| #[trigger] is_heaviness_order(work.spec_core().tags, order)
            && keys@.dominant_tags == leading_names(work.spec_core().tags, order, config@.dominant_tags_per_work),
{
    let franchise = match work.franchise() {
        Some(f) => Some(String::from_str(f)),
        None => None,
    };
    let source = work.studios();
    let mut studios: Vec<String> = Vec::new();
    let mut i: usize = 0;
    while i < source.len()
        invariant
            i <= source@.len(),
            studios@.len() == i,
            forall|x: int| 0 <= x < i ==> (#[trigger] studios@[x])@ == source@[x]@,
        decreases source.len() - i,
    {
        studios.push(source[i].clone());
        i = i + 1;
    }
    assert(studios@.map_values(|s: String| s@) =~= source@.map_values(|s: String| s@));
    let dominant_tags = dominant_tags(work, config.dominant_tags_per_work);
    WorkKeys { franchise, studios, dominant_tags }
}

// ---------------------------------------------------------------- caps

/// The number of names whose lowercase form is `key`.
pub open spec fn occurrences(names: Seq<Seq<char>>, key: Seq<char>) -> nat
    decreases names.len(),
{
    if names.len() == 0 {
        0
    } else {
        occurrences(names.drop_last(), key) + if lowercase_of(names.last()) == key { 1nat } else { 0nat }
    }
}

proof fn lemma_occurrences_bound(names: Seq<Seq<char>>, key: Seq<char>)
    ensures
        occurrences(names, key) <= names.len(),
        occurrences(names, key) > 0 ==> exists|i: int| 0 <= i < names.len() && lowercase_of(#[trigger] names[i]) == key,
    decreases names.len(),
{
    if names.len() > 0 {
        lemma_occurrences_bound(names.drop_last(), key);
        if occurrences(names.drop_last(), key) > 0 {
            let i = choose|i: int| 0 <= i < names.drop_last().len() && lowercase_of(#[trigger] names.drop_last()[i]) == key;
            assert(names[i] == names.drop_last()[i]);
        } else if occurrences(names, key) > 0 {
            assert(lowercase_of(names[names.len() - 1]) == key);
        }
    }
}

/// The counts per lowercase name of the franchises, studios and dominant tags already selected.
#[verifier::ext_equal]
pub ghost struct LimitCounts {
    pub franchises: spec_fn(Seq<char>) -> nat,
    pub studios: spec_fn(Seq<char>) -> nat,
    pub dominant_tags: spec_fn(Seq<char>) -> nat,
}

/// Nothing selected yet.
pub open spec fn no_counts() -> LimitCounts {
    LimitCounts { franchises: |k: Seq<char>| 0nat, studios: |k: Seq<char>| 0nat, dominant_tags: |k: Seq<char>| 0nat }
}

/// Every name of the work is still under its cap.
pub open spec fn admits(counts: LimitCounts, work: KeysView, config: DiversificationView) -> bool {
    &&& forall|i: int| 0 <= i < work.franchise.len() ==> (counts.franchises)(lowercase_of(#[trigger] work.franchise[i])) < config.max_per_franchise
    &&& forall|i: int| 0 <= i < work.studios.len() ==> (counts.studios)(lowercase_of(#[trigger] work.studios[i])) < config.max_per_studio
    &&& forall|i: int| 0 <= i < work.dominant_tags.len() ==> (counts.dominant_tags)(lowercase_of(#[trigger] work.dominant_tags[i])) < config.max_per_dominant_tag
}

/// The counts once a work is selected: one more per occurrence of each name.
pub open spec fn added(counts: LimitCounts, work: KeysView) -> LimitCounts {
    LimitCounts {
        franchises: |k: Seq<char>| (counts.franchises)(k) + occurrences(work.franchise, k),
        studios: |k: Seq<char>| (counts.studios)(k) + occurrences(work.studios, k),
        dominant_tags: |k: Seq<char>| (counts.dominant_tags)(k) + occurrences(work.dominant_tags, k),
    }
}

/// A work whose name lists are short enough for its counts to fit a `usize`
/// once it is admitted.
pub open spec fn fits(work: KeysView, config: DiversificationView) -> bool {
    &&& work.franchise.len() <= 1
    &&& work.studios.len() + config.max_per_studio <= usize::MAX + 1
    &&& work.dominant_tags.len() + config.max_per_dominant_tag <= usize::MAX + 1
}

/// The counts of the selection in progress.
#[derive(Debug, PartialEq)]
pub struct LimitState {
    franchises: KeyCounts,
    studios: KeyCounts,
    dominant_tags: KeyCounts,
}

fn admits_names(counts: &KeyCounts, names: &Vec<String>, cap: usize) -> (all_under: bool)
    ensures
        all_under == forall|i: int| 0 <= i < names@.len() ==> counts.spec_count(lowercase_of(#[trigger] names@[i]@)) < cap,
{
    let mut i: usize = 0;
    while i < names.len()
        invariant
            i <= names@.len(),
            forall|j: int| 0 <= j < i ==> counts.spec_count(lowercase_of(#[trigger] names@[j]@)) < cap,
        decreases names.len() - i,
    {
        if count(counts, names[i].as_str()) >= cap {
            return false;
        }
        i = i + 1;
    }
    true
}

fn add_names(counts: &mut KeyCounts, names: &Vec<String>, cap: usize)
    requires
        forall|i: int| 0 <= i < names@.len() ==> old(counts).spec_count(lowercase_of(#[trigger] names@[i]@)) < cap,
        names@.len() + cap <= usize::MAX + 1,
    ensures
        forall|k: Seq<char>| #[trigger] final(counts).spec_count(k) == old(counts).spec_count(k) + occurrences(names@.map_values(|s: String| s@), k),
{
    let ghost start = *counts;
    let ghost all = names@.map_values(|s: String| s@);
    let mut i: usize = 0;
    while i < names.len()
        invariant
            i <= names@.len(),
            all == names@.map_values(|s: String| s@),
            forall|j: int| 0 <= j < names@.len() ==> start.spec_count(lowercase_of(#[trigger] names@[j]@)) < cap,
            names@.len() + cap <= usize::MAX + 1,
            forall|k: Seq<char>| #[trigger] counts.spec_count(k) == start.spec_count(k) + occurrences(all.take(i as int), k),
        decreases names.len() - i,
    {
        let ghost key = lowercase_of(names@[i as int]@);
        proof {
            lemma_occurrences_bound(all.take(i as int), key);
            assert(counts.spec_count(key) == start.spec_count(key) + occurrences(all.take(i as int), key));
        }
        increment(counts, names[i].as_str());
        proof {
            assert forall|k: Seq<char>| #[trigger] counts.spec_count(k) == start.spec_count(k) + occurrences(all.take(i + 1), k) by {
                assert(all.take(i + 1).drop_last() =~= all.take(i as int));
                assert(all.take(i + 1).last() == names@[i as int]@);
            }
        }
        i = i + 1;
    }
    assert(all.take(names@.len() as int) =~= all);
}

fn remove_names(counts: &mut KeyCounts, names: &Vec<String>)
    requires
        forall|k: Seq<char>| #[trigger] old(counts).spec_count(k) >= occurrences(names@.map_values(|s: String| s@), k),
    ensures
        forall|k: Seq<char>| #[trigger] final(counts).spec_count(k) + occurrences(names@.map_values(|s: String| s@), k) == old(counts).spec_count(k),
{
    let ghost start = *counts;
    let ghost all = names@.map_values(|s: String| s@);
    let mut i: usize = 0;
    while i < names.len()
        invariant
            i <= names@.len(),
            all == names@.map_values(|s: String| s@),
            forall|k: Seq<char>| #[trigger] start.spec_count(k) >= occurrences(all, k),
            forall|k: Seq<char>| #[trigger] counts.spec_count(k) + occurrences(all.take(i as int), k) == start.spec_count(k),
        decreases names.len() - i,
    {
        let ghost key = lowercase_of(names@[i as int]@);
        proof {
            lemma_occurrences_split(all, i as int, key);
            assert(counts.spec_count(key) + occurrences(all.take(i as int), key) == start.spec_count(key));
        }
        decrement(counts, names[i].as_str());
        proof {
            assert forall|k: Seq<char>| #[trigger] counts.spec_count(k) + occurrences(all.take(i + 1), k) == start.spec_count(k) by {
                assert(all.take(i + 1).drop_last() =~= all.take(i as int));
                assert(all.take(i + 1).last() == names@[i as int]@);
            }
        }
        i = i + 1;
    }
    assert(all.take(names@.len() as int) =~= all);
}

proof fn lemma_occurrences_split(names: Seq<Seq<char>>, i: int, key: Seq<char>)
    requires
        0 <= i < names.len(),
        lowercase_of(names[i]) == key,
    ensures
        occurrences(names.take(i), key) < occurrences(names, key),
    decreases names.len(),
{
    if i < names.len() - 1 {
        lemma_occurrences_split(names.drop_last(), i, key);
        assert(names.drop_last().take(i) =~= names.take(i));
    } else {
        assert(names.take(i) =~= names.drop_last());
    }
}

impl LimitState {
    /// The counts, per lowercase name.
    pub closed spec fn spec_counts(self) -> LimitCounts {
        LimitCounts {
            franchises: |k: Seq<char>| self.franchises.spec_count(k),
            studios: |k: Seq<char>| self.studios.spec_count(k),
            dominant_tags: |k: Seq<char>| self.dominant_tags.spec_count(k),
        }
    }

    /// Nothing selected yet.
    pub fn new() -> (limits: LimitState)
        ensures
            limits.spec_counts() =~= no_counts(),
    {
        LimitState { franchises: KeyCounts::new(), studios: KeyCounts::new(), dominant_tags: KeyCounts::new() }
    }

    fn franchise_list(work: &WorkKeys) -> (names: Vec<String>)
        ensures
            names@.map_values(|s: String| s@) == work@.franchise,
    {
        let mut names: Vec<String> = Vec::new();
        match &work.franchise {
            Some(f) => {
                names.push(f.clone());
                assert(names@.map_values(|s: String| s@) =~= work@.franchise);
            },
            None => {
                assert(names@.map_values(|s: String| s@) =~= work@.franchise);
            },
        }
        names
    }

    /// Whether every name of the work is still under its cap.
    pub fn allows(&self, work: &WorkKeys, config: &DiversificationConfig) -> (allowed: bool)
        ensures
            allowed == admits(self.spec_counts(), work@, config@),
    {
        let franchise = Self::franchise_list(work);
        let a = admits_names(&self.franchises, &franchise, config.max_per_franchise);
        let b = admits_names(&self.studios, &work.studios, config.max_per_studio);
        let c = admits_names(&self.dominant_tags, &work.dominant_tags, config.max_per_dominant_tag);
        proof {
            let counts = self.spec_counts();
            assert(a == forall|i: int| 0 <= i < work@.franchise.len() ==> (counts.franchises)(lowercase_of(#[trigger] work@.franchise[i])) < config@.max_per_franchise) by {
                if a {
                    assert forall|i: int| 0 <= i < work@.franchise.len() implies (counts.franchises)(lowercase_of(#[trigger] work@.franchise[i])) < config@.max_per_franchise by {
                        assert(work@.franchise[i] == franchise@[i]@);
                    }
                } else {
                    let i = choose|i: int| 0 <= i < franchise@.len() && !(self.franchises.spec_count(lowercase_of(#[trigger] franchise@[i]@)) < config.max_per_franchise);
                    assert(work@.franchise[i] == franchise@[i]@);
                }
            }
            assert(b == forall|i: int| 0 <= i < work@.studios.len() ==> (counts.studios)(lowercase_of(#[trigger] work@.studios[i])) < config@.max_per_studio) by {
                if b {
                    assert forall|i: int| 0 <= i < work@.studios.len() implies (counts.studios)(lowercase_of(#[trigger] work@.studios[i])) < config@.max_per_studio by {
                        assert(work@.studios[i] == work.studios@[i]@);
                    }
                } else {
                    let i = choose|i: int| 0 <= i < work.studios@.len() && !(self.studios.spec_count(lowercase_of(#[trigger] work.studios@[i]@)) < config.max_per_studio);
                    assert(work@.studios[i] == work.studios@[i]@);
                }
            }
            assert(c == forall|i: int| 0 <= i < work@.dominant_tags.len() ==> (counts.dominant_tags)(lowercase_of(#[trigger] work@.dominant_tags[i])) < config@.max_per_dominant_tag) by {
                if c {
                    assert forall|i: int| 0 <= i < work@.dominant_tags.len() implies (counts.dominant_tags)(lowercase_of(#[trigger] work@.dominant_tags[i])) < config@.max_per_dominant_tag by {
                        assert(work@.dominant_tags[i] == work.dominant_tags@[i]@);
                    }
                } else {
                    let i = choose|i: int| 0 <= i < work.dominant_tags@.len() && !(self.dominant_tags.spec_count(lowercase_of(#[trigger] work.dominant_tags@[i]@)) < config.max_per_dominant_tag);
                    assert(work@.dominant_tags[i] == work.dominant_tags@[i]@);
                }
            }
        }
        a && b && c
    }

    /// Counts a selected work.
    pub fn add(&mut self, work: &WorkKeys, config: &DiversificationConfig)
        requires
            admits(old(self).spec_counts(), work@, config@),
            fits(work@, config@),
        ensures
            final(self).spec_counts() =~= added(old(self).spec_counts(), work@),
    {
        let franchise = Self::franchise_list(work);
        proof {
            assert forall|i: int| 0 <= i < franchise@.len() implies old(self).franchises.spec_count(lowercase_of(#[trigger] franchise@[i]@)) < config.max_per_franchise by {
                assert(work@.franchise[i] == franchise@[i]@);
            }
            assert forall|i: int| 0 <= i < work.studios@.len() implies old(self).studios.spec_count(lowercase_of(#[trigger] work.studios@[i]@)) < config.max_per_studio by {
                assert(work@.studios[i] == work.studios@[i]@);
            }
            assert forall|i: int| 0 <= i < work.dominant_tags@.len() implies old(self).dominant_tags.spec_count(lowercase_of(#[trigger] work.dominant_tags@[i]@)) < config.max_per_dominant_tag by {
                assert(work@.dominant_tags[i] == work.dominant_tags@[i]@);
            }
        }
        add_names(&mut self.franchises, &franchise, config.max_per_franchise);
        add_names(&mut self.studios, &work.studios, config.max_per_studio);
        add_names(&mut self.dominant_tags, &work.dominant_tags, config.max_per_dominant_tag);
    }

    /// Stops counting a work that was counted.
    pub fn remove(&mut self, work: &WorkKeys, config: &DiversificationConfig)
        requires
            exists|before: LimitCounts| #[trigger] added(before, work@) =~= old(self).spec_counts(),
        ensures
            added(final(self).spec_counts(), work@) =~= old(self).spec_counts(),
    {
        let franchise = Self::franchise_list(work);
        proof {
            let before = choose|before: LimitCounts| #[trigger] added(before, work@) =~= old(self).spec_counts();
            assert forall|k: Seq<char>| #[trigger] old(self).franchises.spec_count(k) >= occurrences(franchise@.map_values(|s: String| s@), k) by {
                assert((old(self).spec_counts().franchises)(k) == (added(before, work@).franchises)(k));
            }
            assert forall|k: Seq<char>| #[trigger] old(self).studios.spec_count(k) >= occurrences(work.studios@.map_values(|s: String| s@), k) by {
                assert((old(self).spec_counts().studios)(k) == (added(before, work@).studios)(k));
            }
            assert forall|k: Seq<char>| #[trigger] old(self).dominant_tags.spec_count(k) >= occurrences(work.dominant_tags@.map_values(|s: String| s@), k) by {
                assert((old(self).spec_counts().dominant_tags)(k) == (added(before, work@).dominant_tags)(k));
            }
        }
        remove_names(&mut self.franchises, &franchise);
        remove_names(&mut self.studios, &work.studios);
        remove_names(&mut self.dominant_tags, &work.dominant_tags);
    }
}

// ---------------------------------------------------------------- feasibility

/// What each work is capped by.
pub open spec fn key_views(keys: Seq<WorkKeys>) -> Seq<KeysView> {
    keys.map_values(|k: WorkKeys| k@)
}

/// The works `chosen` can be admitted one after another, each under the
/// caps left by those before it.
pub open spec fn admitted_in_order(keys: Seq<KeysView>, config: DiversificationView, chosen: Seq<usize>, counts: LimitCounts) -> bool
    decreases chosen.len(),
{
    chosen.len() == 0 || (admits(counts, keys[chosen[0] as int], config)
        && admitted_in_order(keys, config, chosen.drop_first(), added(counts, keys[chosen[0] as int])))
}

/// The counts once the `chosen` works are selected, in order.
pub open spec fn counts_after(keys: Seq<KeysView>, chosen: Seq<usize>, counts: LimitCounts) -> LimitCounts
    decreases chosen.len(),
{
    if chosen.len() == 0 {
        counts
    } else {
        counts_after(keys, chosen.drop_first(), added(counts, keys[chosen[0] as int]))
    }
}

/// No franchise, studio or dominant tag is counted more times than its cap.
pub open spec fn within_caps(counts: LimitCounts, config: DiversificationView) -> bool {
    forall|k: Seq<char>|
        #![trigger (counts.franchises)(k)]
        #![trigger (counts.studios)(k)]
        #![trigger (counts.dominant_tags)(k)]
        {
            &&& (counts.franchises)(k) <= config.max_per_franchise
            &&& (counts.studios)(k) <= config.max_per_studio
            &&& (counts.dominant_tags)(k) <= config.max_per_dominant_tag
        }
}

/// A work names each franchise, studio and dominant tag at most once,
/// regardless of case.
pub open spec fn names_once(work: KeysView) -> bool {
    forall|k: Seq<char>|
        #![trigger occurrences(work.franchise, k)]
        #![trigger occurrences(work.studios, k)]
        #![trigger occurrences(work.dominant_tags, k)]
        {
            &&& occurrences(work.franchise, k) <= 1
            &&& occurrences(work.studios, k) <= 1
            &&& occurrences(work.dominant_tags, k) <= 1
        }
}

/// The caps hold of a whole selection: when each selected work is admitted
/// by the counts of the works selected before it, no franchise, studio or
/// dominant tag is shared by more selected works than its cap allows.
pub proof fn lemma_admitted_within_caps(
    keys: Seq<KeysView>,
    config: DiversificationView,
    chosen: Seq<usize>,
    counts: LimitCounts,
)
    requires
        within_caps(counts, config),
        forall|i: int| 0 <= i < chosen.len() ==> (#[trigger] chosen[i]) < keys.len(),
        forall|i: int| 0 <= i < chosen.len() ==> names_once(keys[#[trigger] chosen[i] as int]),
        admitted_in_order(keys, config, chosen, counts),
    ensures
        within_caps(counts_after(keys, chosen, counts), config),
    decreases chosen.len(),
{
    if chosen.len() > 0 {
        let w = keys[chosen[0] as int];
        let next = added(counts, w);
        assert(names_once(keys[chosen[0] as int]));
        assert forall|k: Seq<char>|
            #![trigger (next.franchises)(k)]
            #![trigger (next.studios)(k)]
            #![trigger (next.dominant_tags)(k)]
            {
                &&& (next.franchises)(k) <= config.max_per_franchise
                &&& (next.studios)(k) <= config.max_per_studio
                &&& (next.dominant_tags)(k) <= config.max_per_dominant_tag
            } by {
            assert((counts.franchises)(k) <= config.max_per_franchise);
            assert((counts.studios)(k) <= config.max_per_studio);
            assert((counts.dominant_tags)(k) <= config.max_per_dominant_tag);
            assert(occurrences(w.franchise, k) <= 1);
            assert(occurrences(w.studios, k) <= 1);
            assert(occurrences(w.dominant_tags, k) <= 1);
            lemma_occurrences_bound(w.franchise, k);
            lemma_occurrences_bound(w.studios, k);
            lemma_occurrences_bound(w.dominant_tags, k);
            if occurrences(w.franchise, k) > 0 {
                let i = choose|i: int| 0 <= i < w.franchise.len() && lowercase_of(#[trigger] w.franchise[i]) == k;
                assert((counts.franchises)(lowercase_of(w.franchise[i])) < config.max_per_franchise);
            }
            if occurrences(w.studios, k) > 0 {
                let i = choose|i: int| 0 <= i < w.studios.len() && lowercase_of(#[trigger] w.studios[i]) == k;
                assert((counts.studios)(lowercase_of(w.studios[i])) < config.max_per_studio);
            }
            if occurrences(w.dominant_tags, k) > 0 {
                let i = choose|i: int| 0 <= i < w.dominant_tags.len() && lowercase_of(#[trigger] w.dominant_tags[i]) == k;
                assert((counts.dominant_tags)(lowercase_of(w.dominant_tags[i])) < config.max_per_dominant_tag);
            }
        }
        let rest = chosen.drop_first();
        assert forall|i: int| 0 <= i < rest.len() implies (#[trigger] rest[i]) < keys.len() && names_once(keys[rest[i] as int]) by {
            assert(rest[i] == chosen[i + 1]);
        }
        lemma_admitted_within_caps(keys, config, rest, next);
    }
}

/// `picks` are `needed` strictly increasing positions of `available` whose
/// works can be admitted in that order.
pub open spec fn is_fill(
    keys: Seq<KeysView>,
    config: DiversificationView,
    available: Seq<usize>,
    counts: LimitCounts,
    needed: nat,
    picks: Seq<int>,
) -> bool {
    &&& picks.len() == needed
    &&& forall|i: int| 0 <= i < picks.len() ==> 0 <= #[trigger] picks[i] < available.len()
    &&& forall|i: int, j: int| 0 <= i < j < picks.len() ==> #[trigger] picks[i] < #[trigger] picks[j]
    &&& admitted_in_order(keys, config, picks.map_values(|p: int| available[p]), counts)
}

/// Some `needed` of the available works can be selected without breaking a cap.
pub open spec fn fillable(keys: Seq<KeysView>, config: DiversificationView, available: Seq<usize>, counts: LimitCounts, needed: nat) -> bool {
    exists|picks: Seq<int>| #[trigger] is_fill(keys, config, available, counts, needed, picks)
}

proof fn lemma_increasing_positions(picks: Seq<int>)
    requires
        picks.len() > 0,
        picks[0] >= 0,
        forall|i: int, j: int| 0 <= i < j < picks.len() ==> #[trigger] picks[i] < #[trigger] picks[j],
    ensures
        picks[picks.len() - 1] >= picks.len() - 1,
    decreases picks.len(),
{
    if picks.len() > 1 {
        lemma_increasing_positions(picks.drop_last());
        assert(picks[picks.len() - 2] < picks[picks.len() - 1]);
    }
}

proof fn lemma_counts_restored(restored: LimitCounts, start: LimitCounts, work: KeysView)
    requires
        added(restored, work) =~= added(start, work),
    ensures
        restored =~= start,
{
    assert forall|k: Seq<char>| #[trigger] (restored.franchises)(k) == (start.franchises)(k) by {
        assert((added(restored, work).franchises)(k) == (added(start, work).franchises)(k));
    }
    assert forall|k: Seq<char>| #[trigger] (restored.studios)(k) == (start.studios)(k) by {
        assert((added(restored, work).studios)(k) == (added(start, work).studios)(k));
    }
    assert forall|k: Seq<char>| #[trigger] (restored.dominant_tags)(k) == (start.dominant_tags)(k) by {
        assert((added(restored, work).dominant_tags)(k) == (added(start, work).dominant_tags)(k));
    }
}

/// A fill whose first pick is `position` is the work there followed by a
/// fill of the positions after it, under the counts that include that work.
proof fn lemma_fill_split(
    keys: Seq<KeysView>,
    config: DiversificationView,
    available: Seq<usize>,
    counts: LimitCounts,
    needed: nat,
    position: int,
    picks: Seq<int>,
)
    requires
        needed > 0,
        0 <= position < available.len(),
        picks.len() == needed,
        picks[0] == position,
    ensures
        is_fill(keys, config, available, counts, needed, picks) <==> (
            admits(counts, keys[available[position] as int], config)
            && is_fill(keys, config, available.subrange(position + 1, available.len() as int),
                added(counts, keys[available[position] as int]), (needed - 1) as nat,
                picks.drop_first().map_values(|x: int| x - position - 1))
        ),
{
    let rest = available.subrange(position + 1, available.len() as int);
    let sub = picks.drop_first().map_values(|x: int| x - position - 1);
    let chosen = picks.map_values(|p: int| available[p]);
    let sub_chosen = sub.map_values(|p: int| rest[p]);
    if is_fill(keys, config, available, counts, needed, picks) {
        assert forall|i: int| 0 <= i < sub.len() implies #[trigger] sub_chosen[i] == chosen.drop_first()[i] by {
            assert(picks[0] < picks[i + 1]);
            assert(0 <= picks[i + 1] < available.len());
        }
        assert(sub_chosen =~= chosen.drop_first());
        assert forall|i: int| 0 <= i < sub.len() implies 0 <= #[trigger] sub[i] < rest.len() by {
            assert(picks[0] < picks[i + 1]);
            assert(0 <= picks[i + 1] < available.len());
        }
        assert forall|i: int, j: int| 0 <= i < j < sub.len() implies #[trigger] sub[i] < #[trigger] sub[j] by {
            assert(picks[i + 1] < picks[j + 1]);
        }
        assert(chosen[0] == available[position]);
    }
    if admits(counts, keys[available[position] as int], config)
        && is_fill(keys, config, rest, added(counts, keys[available[position] as int]), (needed - 1) as nat, sub) {
        assert forall|i: int| 0 <= i < picks.len() implies 0 <= #[trigger] picks[i] < available.len() by {
            if i > 0 {
                assert(sub[i - 1] == picks[i] - position - 1);
                assert(0 <= sub[i - 1] < rest.len());
            }
        }
        assert forall|i: int, j: int| 0 <= i < j < picks.len() implies #[trigger] picks[i] < #[trigger] picks[j] by {
            if i > 0 {
                assert(sub[i - 1] < sub[j - 1]);
            } else {
                assert(sub[j - 1] == picks[j] - position - 1);
                assert(0 <= sub[j - 1]);
            }
        }
        assert forall|i: int| 0 <= i < sub.len() implies #[trigger] sub_chosen[i] == chosen.drop_first()[i] by {
            assert(sub[i] == picks[i + 1] - position - 1);
        }
        assert(sub_chosen =~= chosen.drop_first());
        assert(chosen[0] == available[position]);
    }
}

/// Whether `needed` of the available works can still be selected without
/// breaking a cap, given the works already counted: a search over every
/// choice, in order. The counts come back unchanged.
pub fn can_fill(
    keys: &[WorkKeys],
    config: &DiversificationConfig,
    available: &[usize],
    limits: &mut LimitState,
    needed: usize,
) -> (feasible: bool)
    requires
        forall|p: int| 0 <= p < available@.len() ==> (#[trigger] available@[p]) < keys@.len(),
        forall|w: int| 0 <= w < keys@.len() ==> fits(#[trigger] keys@[w]@, config@),
    ensures
        feasible == fillable(key_views(keys@), config@, available@, old(limits).spec_counts(), needed as nat),
        final(limits).spec_counts() =~= old(limits).spec_counts(),
    decreases available@.len(),
{
    let ghost views = key_views(keys@);
    let ghost start = limits.spec_counts();
    if needed == 0 {
        proof {
            let empty = Seq::<int>::empty();
            assert(empty.map_values(|p: int| available@[p]) =~= Seq::<usize>::empty());
            assert(is_fill(views, config@, available@, start, 0, empty));
        }
        return true;
    }
    if available.len() < needed {
        proof {
            assert forall|picks: Seq<int>| !#[trigger] is_fill(views, config@, available@, start, needed as nat, picks) by {
                if is_fill(views, config@, available@, start, needed as nat, picks) {
                    lemma_increasing_positions(picks);
                    assert(0 <= picks[picks.len() - 1] < available@.len());
                }
            }
        }
        return false;
    }
    let mut position: usize = 0;
    while position < available.len()
        invariant
            views == key_views(keys@),
            start == old(limits).spec_counts(),
            limits.spec_counts() == start,
            needed > 0,
            position <= available@.len(),
            forall|p: int| 0 <= p < available@.len() ==> (#[trigger] available@[p]) < keys@.len(),
            forall|w: int| 0 <= w < keys@.len() ==> fits(#[trigger] keys@[w]@, config@),
            forall|picks: Seq<int>| #[trigger] is_fill(views, config@, available@, start, needed as nat, picks) ==> picks[0] >= position,
        decreases available.len() - position,
    {
        let index = available[position];
        let work = &keys[index];
        assert(views[index as int] == work@);
        if limits.allows(work, config) {
            limits.add(work, config);
            let rest = &available[position + 1..available.len()];
            let feasible = can_fill(keys, config, rest, limits, needed - 1);
            proof {
                assert(added(start, work@) =~= limits.spec_counts());
            }
            limits.remove(work, config);
            proof {
                lemma_counts_restored(limits.spec_counts(), start, work@);
                assert(limits.spec_counts() == start);
            }
            if feasible {
                proof {
                    let sub = choose|sub: Seq<int>| #[trigger] is_fill(views, config@, rest@, added(start, work@), (needed - 1) as nat, sub);
                    let picks = seq![position as int] + sub.map_values(|x: int| x + position + 1);
                    assert(picks.drop_first().map_values(|x: int| x - position - 1) =~= sub);
                    lemma_fill_split(views, config@, available@, start, needed as nat, position as int, picks);
                }
                return true;
            }
            proof {
                assert forall|picks: Seq<int>| #[trigger] is_fill(views, config@, available@, start, needed as nat, picks) implies picks[0] >= position + 1 by {
                    if picks[0] == position {
                        lemma_fill_split(views, config@, available@, start, needed as nat, position as int, picks);
                    }
                }
            }
        } else {
            proof {
                assert forall|picks: Seq<int>| #[trigger] is_fill(views, config@, available@, start, needed as nat, picks) implies picks[0] >= position + 1 by {
                    if picks[0] == position {
                        lemma_fill_split(views, config@, available@, start, needed as nat, position as int, picks);
                    }
                }
            }
        }
        position = position + 1;
    }
    proof {
        assert forall|picks: Seq<int>| !#[trigger] is_fill(views, config@, available@, start, needed as nat, picks) by {
            if is_fill(views, config@, available@, start, needed as nat, picks) {
                assert(0 <= picks[0] < available@.len());
            }
        }
    }
    false
}

/// The size of the final list: the requested total, capped by the number
/// of candidates.
pub open spec fn desired_size(config: DiversificationView, candidates: nat) -> nat {
    let requested = config.safe_count + config.exploration_count;
    if requested < candidates { requested } else { candidates }
}

/// The sizes of the two parts of the final list, bets first: the largest
/// total, up to the requested total and the number of candidates, that a
/// selection respecting the caps can reach; the bets take their share of it
/// first, the safe picks the rest.
pub fn selection_sizes(keys: &[WorkKeys], config: &DiversificationConfig) -> (sizes: (usize, usize))
    requires
        forall|w: int| 0 <= w < keys@.len() ==> fits(#[trigger] keys@[w]@, config@),
    ensures
        ({
            let total = sizes.0 + sizes.1;
            &&& total <= desired_size(config@, keys@.len())
            &&& total > 0 ==> fillable(key_views(keys@), config@, all_positions(keys@.len()), no_counts(), total as nat)
            &&& forall|s: nat| total < s <= desired_size(config@, keys@.len())
                ==> !#[trigger] fillable(key_views(keys@), config@, all_positions(keys@.len()), no_counts(), s)
            &&& sizes.0 == (if config@.exploration_count < total { config@.exploration_count as int } else { total })
            &&& sizes.1 <= config@.safe_count
        }),
{
    let safe = config.safe_count();
    let exploration = config.exploration_count();
    let requested = safe.saturating_add(exploration);
    let desired = if requested < keys.len() { requested } else { keys.len() };
    let target = maximum_feasible_size(keys, config, desired);
    let exploration_target = if exploration < target { exploration } else { target };
    let rest = target - exploration_target;
    let safe_target = if safe < rest { safe } else { rest };
    (exploration_target, safe_target)
}

/// The positions `0..n`.
pub open spec fn all_positions(n: nat) -> Seq<usize> {
    Seq::new(n, |i: int| i as usize)
}

/// The largest size, up to `desired`, that a selection respecting the caps
/// can reach; zero when none can.
pub fn maximum_feasible_size(keys: &[WorkKeys], config: &DiversificationConfig, desired: usize) -> (size: usize)
    requires
        forall|w: int| 0 <= w < keys@.len() ==> fits(#[trigger] keys@[w]@, config@),
    ensures
        size <= desired,
        size > 0 ==> fillable(key_views(keys@), config@, all_positions(keys@.len()), no_counts(), size as nat),
        forall|s: nat| size < s <= desired ==> !#[trigger] fillable(key_views(keys@), config@, all_positions(keys@.len()), no_counts(), s),
{
    let mut available: Vec<usize> = Vec::new();
    let mut i: usize = 0;
    while i < keys.len()
        invariant
            i <= keys@.len(),
            available@ == all_positions(i as nat),
        decreases keys.len() - i,
    {
        available.push(i);
        assert(available@ =~= all_positions((i + 1) as nat));
        i = i + 1;
    }
    let mut size = desired;
    while size > 0
        invariant
            size <= desired,
            available@ == all_positions(keys@.len()),
            forall|w: int| 0 <= w < keys@.len() ==> fits(#[trigger] keys@[w]@, config@),
            forall|s: nat| size < s <= desired ==> !#[trigger] fillable(key_views(keys@), config@, all_positions(keys@.len()), no_counts(), s),
        decreases size,
    {
        let mut limits = LimitState::new();
        proof { assert(limits.spec_counts() == no_counts()); }
        if can_fill(keys, config, available.as_slice(), &mut limits, size) {
            return size;
        }
        size = size - 1;
    }
    size
}

/// The positions of `open` other than `excluded`, in order.
pub open spec fn without(open: Seq<usize>, excluded: usize) -> Seq<usize>
    decreases open.len(),
{
    if open.len() == 0 {
        Seq::empty()
    } else {
        let rest = without(open.drop_last(), excluded);
        if open.last() == excluded { rest } else { rest.push(open.last()) }
    }
}

fn others(open: &Vec<usize>, excluded: usize) -> (rest: Vec<usize>)
    ensures
        rest@ == without(open@, excluded),
{
    let mut rest: Vec<usize> = Vec::new();
    let mut i: usize = 0;
    while i < open.len()
        invariant
            i <= open@.len(),
            rest@ == without(open@.take(i as int), excluded),
        decreases open.len() - i,
    {
        assert(open@.take(i + 1).drop_last() =~= open@.take(i as int));
        if open[i] != excluded {
            rest.push(open[i]);
        }
        i = i + 1;
    }
    assert(open@.take(open@.len() as int) =~= open@);
    rest
}

/// A pick that respects the caps and keeps `needed_after` more picks possible.
pub open spec fn sound_pick(
    keys: Seq<KeysView>,
    config: DiversificationView,
    open: Seq<usize>,
    counts: LimitCounts,
    needed_after: nat,
    index: usize,
) -> bool {
    &&& admits(counts, keys[index as int], config)
    &&& fillable(keys, config, without(open, index), added(counts, keys[index as int]), needed_after)
}

/// Positions in strictly increasing order.
pub open spec fn increasing(open: Seq<usize>) -> bool {
    forall|a: int, b: int| 0 <= a < b < open.len() ==> #[trigger] open[a] < #[trigger] open[b]
}

proof fn lemma_without_increasing(open: Seq<usize>, p: int)
    requires
        increasing(open),
        0 <= p < open.len(),
    ensures
        without(open, open[p]) =~= open.remove(p),
    decreases open.len(),
{
    let x = open[p];
    if p == open.len() - 1 {
        lemma_without_absent(open.drop_last(), x);
        assert(open.remove(p) =~= open.drop_last());
    } else {
        lemma_without_increasing(open.drop_last(), p);
        assert(open.last() != x);
        assert(open.remove(p) =~= open.drop_last().remove(p).push(open.last()));
    }
}

proof fn lemma_without_absent(open: Seq<usize>, x: usize)
    requires
        forall|i: int| 0 <= i < open.len() ==> #[trigger] open[i] < x,
    ensures
        without(open, x) =~= open,
    decreases open.len(),
{
    if open.len() > 0 {
        lemma_without_absent(open.drop_last(), x);
        assert(open =~= open.drop_last().push(open.last()));
    }
}

/// Feasibility survives a first pick: when a selection of `needed_after + 1`
/// works exists among the open positions, its first work is a sound pick.
pub proof fn lemma_lookahead(
    keys: Seq<KeysView>,
    config: DiversificationView,
    open: Seq<usize>,
    counts: LimitCounts,
    needed_after: nat,
)
    requires
        increasing(open),
        fillable(keys, config, open, counts, needed_after + 1),
    ensures
        exists|p: int| 0 <= p < open.len() && #[trigger] sound_pick(keys, config, open, counts, needed_after, open[p]),
{
    let picks = choose|picks: Seq<int>| #[trigger] is_fill(keys, config, open, counts, needed_after + 1, picks);
    let p = picks[0];
    lemma_fill_split(keys, config, open, counts, needed_after + 1, p, picks);
    let sub = picks.drop_first().map_values(|x: int| x - p - 1);
    let rest = open.subrange(p + 1, open.len() as int);
    let x = open[p];
    lemma_without_increasing(open, p);
    let shifted = sub.map_values(|y: int| y + p);
    let target = open.remove(p);
    assert forall|i: int| 0 <= i < shifted.len() implies 0 <= #[trigger] shifted[i] < target.len() by {
        assert(0 <= sub[i] < rest.len());
    }
    assert forall|i: int, j: int| 0 <= i < j < shifted.len() implies #[trigger] shifted[i] < #[trigger] shifted[j] by {
        assert(sub[i] < sub[j]);
    }
    let left = shifted.map_values(|q: int| target[q]);
    let right = sub.map_values(|q: int| rest[q]);
    assert forall|i: int| 0 <= i < sub.len() implies #[trigger] left[i] == right[i] by {
        assert(0 <= sub[i] < rest.len());
        assert(target[sub[i] + p] == open[sub[i] + p + 1]);
    }
    assert(left =~= right);
    assert(is_fill(keys, config, target, added(counts, keys[x as int]), needed_after, shifted));
    assert(sound_pick(keys, config, open, counts, needed_after, open[p]));
}

/// Picks the next work of a kind: the first position of `ranked` (the
/// caller's order by marginal relevance) whose work respects the caps and
/// leaves `needed_after` more picks possible among the other open positions.
/// When such a selection of `needed_after + 1` works exists and `ranked`
/// lists every open position, a pick is always found. The counts come back
/// unchanged.
pub fn select_next(
    keys: &[WorkKeys],
    config: &DiversificationConfig,
    ranked: &[usize],
    open: &Vec<usize>,
    limits: &mut LimitState,
    needed_after: usize,
) -> (pick: Option<usize>)
    requires
        forall|p: int| 0 <= p < ranked@.len() ==> (#[trigger] ranked@[p]) < keys@.len(),
        forall|p: int| 0 <= p < open@.len() ==> (#[trigger] open@[p]) < keys@.len(),
        forall|w: int| 0 <= w < keys@.len() ==> fits(#[trigger] keys@[w]@, config@),
    ensures
        final(limits).spec_counts() =~= old(limits).spec_counts(),
        match pick {
            Some(index) => exists|i: int| 0 <= i < ranked@.len() && #[trigger] ranked@[i] == index
                && sound_pick(key_views(keys@), config@, open@, old(limits).spec_counts(), needed_after as nat, index)
                && forall|j: int| 0 <= j < i ==> !sound_pick(key_views(keys@), config@, open@, old(limits).spec_counts(), needed_after as nat, #[trigger] ranked@[j]),
            None => forall|j: int| 0 <= j < ranked@.len() ==> !sound_pick(key_views(keys@), config@, open@, old(limits).spec_counts(), needed_after as nat, #[trigger] ranked@[j]),
        },
        (increasing(open@) && (forall|p: int| 0 <= p < open@.len() ==> ranked@.contains(#[trigger] open@[p]))
            && fillable(key_views(keys@), config@, open@, old(limits).spec_counts(), (needed_after + 1) as nat)) ==> pick is Some,
{
    let ghost views = key_views(keys@);
    let ghost start = limits.spec_counts();
    let mut r: usize = 0;
    while r < ranked.len()
        invariant
            views == key_views(keys@),
            start == old(limits).spec_counts(),
            limits.spec_counts() == start,
            r <= ranked@.len(),
            forall|p: int| 0 <= p < ranked@.len() ==> (#[trigger] ranked@[p]) < keys@.len(),
            forall|p: int| 0 <= p < open@.len() ==> (#[trigger] open@[p]) < keys@.len(),
            forall|w: int| 0 <= w < keys@.len() ==> fits(#[trigger] keys@[w]@, config@),
            forall|j: int| 0 <= j < r ==> !sound_pick(views, config@, open@, start, needed_after as nat, #[trigger] ranked@[j]),
        decreases ranked.len() - r,
    {
        let index = ranked[r];
        let work = &keys[index];
        assert(views[index as int] == work@);
        if limits.allows(work, config) {
            limits.add(work, config);
            let rest = others(open, index);
            proof {
                assert forall|p: int| 0 <= p < rest@.len() implies (#[trigger] rest@[p]) < keys@.len() by {
                    lemma_without_member(open@, index, p);
                }
            }
            let feasible = can_fill(keys, config, rest.as_slice(), limits, needed_after);
            proof {
                assert(added(start, work@) =~= limits.spec_counts());
            }
            limits.remove(work, config);
            proof {
                lemma_counts_restored(limits.spec_counts(), start, work@);
            }
            if feasible {
                return Some(index);
            }
        }
        r = r + 1;
    }
    proof {
        if increasing(open@) && (forall|p: int| 0 <= p < open@.len() ==> ranked@.contains(#[trigger] open@[p]))
            && fillable(views, config@, open@, start, (needed_after + 1) as nat) {
            lemma_lookahead(views, config@, open@, start, needed_after as nat);
            let p = choose|p: int| 0 <= p < open@.len() && #[trigger] sound_pick(views, config@, open@, start, needed_after as nat, open@[p]);
            assert(ranked@.contains(open@[p]));
        }
    }
    None
}

proof fn lemma_without_member(open: Seq<usize>, excluded: usize, p: int)
    requires
        0 <= p < without(open, excluded).len(),
    ensures
        open.contains(without(open, excluded)[p]),
    decreases open.len(),
{
    let rest = without(open.drop_last(), excluded);
    if p < rest.len() {
        lemma_without_member(open.drop_last(), excluded, p);
        let q = choose|q: int| 0 <= q < open.drop_last().len() && open.drop_last()[q] == rest[p];
        assert(open[q] == rest[p]);
    } else {
        assert(open[open.len() - 1] == open.last());
    }
}

/// The open positions: those below `n` that are not yet selected, in order.
pub fn open_positions(n: usize, selected: &[usize]) -> (open: Vec<usize>)
    ensures
        increasing(open@),
        forall|x: usize| #[trigger] open@.contains(x) <==> (x < n && !selected@.contains(x)),
{
    let mut open: Vec<usize> = Vec::new();
    let mut i: usize = 0;
    while i < n
        invariant
            i <= n,
            increasing(open@),
            forall|p: int| 0 <= p < open@.len() ==> #[trigger] open@[p] < i,
            forall|x: usize| #[trigger] open@.contains(x) <==> (x < i && !selected@.contains(x)),
        decreases n - i,
    {
        let mut taken = false;
        let mut s: usize = 0;
        while s < selected.len()
            invariant
                s <= selected@.len(),
                taken == exists|q: int| 0 <= q < s && selected@[q] == i,
            decreases selected.len() - s,
        {
            if selected[s] == i {
                taken = true;
            }
            s = s + 1;
        }
        if !taken {
            let ghost prev = open@;
            open.push(i);
            proof {
                assert(open@ == prev.push(i));
                assert forall|x: usize| #[trigger] open@.contains(x) <==> (x < i + 1 && !selected@.contains(x)) by {
                    if x == i {
                        assert(open@[open@.len() - 1] == i);
                        assert(!selected@.contains(x));
                    }
                    if open@.contains(x) && x != i {
                        let q = choose|q: int| 0 <= q < open@.len() && open@[q] == x;
                        assert(prev[q] == x);
                        assert(prev.contains(x));
                    }
                    if x < i && !selected@.contains(x) {
                        assert(prev.contains(x));
                        let q = choose|q: int| 0 <= q < prev.len() && prev[q] == x;
                        assert(open@[q] == x);
                    }
                }
            }
        } else {
            proof {
                assert forall|x: usize| #[trigger] open@.contains(x) <==> (x < i + 1 && !selected@.contains(x)) by {
                    if x == i {
                        assert(selected@.contains(x));
                        if open@.contains(x) {
                            let q = choose|q: int| 0 <= q < open@.len() && open@[q] == x;
                            assert(open@[q] < i);
                        }
                    }
                }
            }
        }
        i = i + 1;
    }
    open
}

/// The message of a selection failure.
pub open spec fn diversification_message(e: DiversificationError) -> Seq<char> {
    match e {
        DiversificationError::InvalidConfiguration { field, reason } =>
            "invalid diversification configuration "@ + field@ + ": "@ + reason@,
        DiversificationError::MissingScoredCandidate { work_id } =>
            "scoring did not return candidate "@ + decimal_of(work_id.spec_value() as nat),
        DiversificationError::Scoring(inner) => "cannot diversify recommendations: "@ + scoring_message(inner),
    }
}

impl DiversificationError {
    /// The message of the failure.
    pub fn message(&self) -> (text: String)
        ensures
            text@ == diversification_message(*self),
    {
        match self {
            DiversificationError::InvalidConfiguration { field, reason } => {
                let mut text = String::from_str("invalid diversification configuration ");
                text.append(field);
                text.append(": ");
                text.append(reason);
                text
            },
            DiversificationError::MissingScoredCandidate { work_id } => {
                let mut text = String::from_str("scoring did not return candidate ");
                text.append(crate::text::decimal(work_id.get()).as_str());
                text
            },
            DiversificationError::Scoring(inner) => {
                let mut text = String::from_str("cannot diversify recommendations: ");
                text.append(inner.message().as_str());
                text
            },
        }
    }
}

} // verus!
