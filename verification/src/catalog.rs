//! The AniList catalog adapter's decisions: how a media answer becomes a
//! normalized work, how a GraphQL failure is reported, which page is asked
//! for, whether a cached answer is still fresh, and where it is cached.
//!
//! The HTTP exchange, the JSON decoding and the cache files are the caller's;
//! the divisions that turn an AniList score (out of 100) and a tag rank
//! (out of 100) into binary64 numbers are done by the caller too, and handed
//! over as bit patterns.

use vstd::prelude::*;
use crate::domain::{
    DomainError, NormalizedWork, Rating, ReleaseYear, RuntimeMinutes, TagWeight, Weight, WorkFacts,
    WorkFormat, WorkId, range_check, text_check, tag_key, tags_sorted, keys_distinct, tag_keys, is_first_duplicate,
    domain_message,
};
use crate::ieee::{is_zero, ONE_BITS, TEN_BITS};
use crate::text::{decimal_of, lowercase_of, trimmed};
use sha2::{Digest, Sha256};

verus! {

broadcast use vstd::seq_lib::group_to_multiset_ensures;

/// One AniList tag of a media answer.
#[derive(Debug, Clone, PartialEq)]
pub struct MediaTag {
    pub name: String,
    /// The AniList rank, out of 100.
    pub rank: u8,
    pub is_media_spoiler: bool,
    /// The pattern of `rank / 100`.
    pub weight_bits: u64,
}

/// One media of an AniList answer, as plain values.
#[derive(Debug, Clone, PartialEq)]
pub struct Media {
    pub id: u32,
    pub user_preferred_title: Option<String>,
    pub romaji_title: Option<String>,
    pub english_title: Option<String>,
    pub native_title: Option<String>,
    /// The pattern of `average_score / 10`, when AniList gives a score.
    pub score_bits: Option<u64>,
    pub duration: Option<u32>,
    pub episodes: Option<u32>,
    pub format: Option<String>,
    pub start_year: Option<i32>,
    pub tags: Vec<MediaTag>,
    pub studios: Vec<String>,
}

/// The title shown: the preferred title, else the English, the romaji or the
/// native one, else `AniList #<id>`.
pub open spec fn media_title(m: Media) -> Seq<char> {
    if m.user_preferred_title is Some {
        m.user_preferred_title->0@
    } else if m.english_title is Some {
        m.english_title->0@
    } else if m.romaji_title is Some {
        m.romaji_title->0@
    } else if m.native_title is Some {
        m.native_title->0@
    } else {
        "AniList #"@ + decimal_of(m.id as nat)
    }
}

/// A tag is kept unless it is a spoiler or has no rank.
pub open spec fn tag_kept(t: MediaTag) -> bool {
    !t.is_media_spoiler && t.rank > 0
}

/// The kept tags, in answer order.
pub open spec fn kept_tags(tags: Seq<MediaTag>) -> Seq<MediaTag>
    decreases tags.len(),
{
    if tags.len() == 0 {
        Seq::empty()
    } else {
        let rest = kept_tags(tags.drop_last());
        if tag_kept(tags.last()) { rest.push(tags.last()) } else { rest }
    }
}

/// A kept tag makes a valid tag: a weight in `[0, 1]` that is not zero and
/// a name that is not blank.
pub open spec fn tag_valid(t: MediaTag) -> bool {
    &&& range_check("weight", t.weight_bits, ONE_BITS) is Ok
    &&& text_check("tag.name", t.name@) is Ok
    &&& !is_zero(t.weight_bits)
}

/// The total runtime: duration times episodes when both are known and the
/// product is positive and fits, else the duration alone when only it is
/// known and positive.
pub open spec fn media_runtime(m: Media) -> Option<u32> {
    match (m.duration, m.episodes) {
        (Some(d), Some(e)) => if 0 < d * e <= u32::MAX { Some((d * e) as u32) } else { None },
        (Some(d), None) => if d > 0 { Some(d) } else { None },
        _ => None,
    }
}

/// The AniList format names.
pub open spec fn format_named(name: Seq<char>) -> Option<WorkFormat> {
    if name == "TV"@ || name == "TV_SHORT"@ {
        Some(WorkFormat::Tv)
    } else if name == "MOVIE"@ {
        Some(WorkFormat::Movie)
    } else if name == "OVA"@ {
        Some(WorkFormat::Ova)
    } else if name == "ONA"@ {
        Some(WorkFormat::Ona)
    } else if name == "SPECIAL"@ {
        Some(WorkFormat::Special)
    } else if name == "MUSIC"@ {
        Some(WorkFormat::Music)
    } else {
        None
    }
}

/// The AniList name of each format: the format of the same name.
pub open spec fn anilist_name(format: WorkFormat) -> Seq<char> {
    match format {
        WorkFormat::Tv => "TV"@,
        WorkFormat::Movie => "MOVIE"@,
        WorkFormat::Ova => "OVA"@,
        WorkFormat::Ona => "ONA"@,
        WorkFormat::Special => "SPECIAL"@,
        WorkFormat::Music => "MUSIC"@,
    }
}

/// Each AniList format name gives the format of the same name, `TV_SHORT`
/// gives `Tv` too, every other name gives none; so two different names give
/// the same format only for `TV` and `TV_SHORT`.
pub proof fn lemma_format_names(name: Seq<char>, other: Seq<char>, format: WorkFormat)
    ensures
        format_named(anilist_name(format)) == Some(format),
        format_named(name) == Some(format) <==> (name == anilist_name(format) || (format == WorkFormat::Tv && name == "TV_SHORT"@)),
        format_named(name) is Some && format_named(name) == format_named(other) && name != other
            ==> (name == "TV"@ && other == "TV_SHORT"@) || (name == "TV_SHORT"@ && other == "TV"@),
{
    reveal_strlit("TV");
    reveal_strlit("TV_SHORT");
    reveal_strlit("MOVIE");
    reveal_strlit("OVA");
    reveal_strlit("ONA");
    reveal_strlit("SPECIAL");
    reveal_strlit("MUSIC");
    assert("TV"@.len() != "TV_SHORT"@.len());
    assert("TV"@.len() != "MOVIE"@.len());
    assert("TV"@.len() != "OVA"@.len());
    assert("TV"@.len() != "ONA"@.len());
    assert("TV"@.len() != "SPECIAL"@.len());
    assert("TV"@.len() != "MUSIC"@.len());
    assert("TV_SHORT"@.len() != "MOVIE"@.len());
    assert("TV_SHORT"@.len() != "OVA"@.len());
    assert("TV_SHORT"@.len() != "ONA"@.len());
    assert("TV_SHORT"@.len() != "SPECIAL"@.len());
    assert("TV_SHORT"@.len() != "MUSIC"@.len());
    assert("MOVIE"@.len() != "OVA"@.len());
    assert("MOVIE"@.len() != "ONA"@.len());
    assert("MOVIE"@.len() != "SPECIAL"@.len());
    assert("MOVIE"@[1] != "MUSIC"@[1]);
    assert("OVA"@[1] != "ONA"@[1]);
    assert("OVA"@.len() != "SPECIAL"@.len());
    assert("OVA"@.len() != "MUSIC"@.len());
    assert("ONA"@.len() != "SPECIAL"@.len());
    assert("ONA"@.len() != "MUSIC"@.len());
    assert("SPECIAL"@.len() != "MUSIC"@.len());
}

/// The release year kept: a start year from 1900 that fits a `u16`.
pub open spec fn media_year(m: Media) -> Option<u16> {
    match m.start_year {
        Some(y) => if 1900 <= y <= u16::MAX { Some(y as u16) } else { None },
        None => None,
    }
}

/// Every check of a media answer passes.
pub open spec fn media_valid(m: Media) -> bool {
    let kept = kept_tags(m.tags@);
    &&& m.id > 0
    &&& (m.score_bits matches Some(b) ==> range_check("rating", b, TEN_BITS) is Ok)
    &&& forall|i: int| 0 <= i < kept.len() ==> tag_valid(#[trigger] kept[i])
    &&& text_check("work.title", media_title(m)) is Ok
    &&& keys_distinct(kept.map_values(|t: MediaTag| lowercase_of(trimmed(t.name@))))
    &&& forall|i: int| 0 <= i < m.studios@.len() ==> trimmed(#[trigger] m.studios@[i]@).len() > 0
}

/// Why a kept tag is refused, in the order of the checks: its weight, its
/// name, then a zero weight; nothing for a valid tag.
pub open spec fn tag_error(t: MediaTag) -> Option<DomainError> {
    match range_check("weight", t.weight_bits, ONE_BITS) {
        Err(e) => Some(e),
        Ok(_) => match text_check("tag.name", t.name@) {
            Err(e) => Some(e),
            Ok(_) => if is_zero(t.weight_bits) {
                Some(DomainError::InvalidValue { field: "tag.weight", reason: "must be greater than zero" })
            } else {
                None
            },
        },
    }
}

/// The first refused tag among `tags` is at `j`.
pub open spec fn first_tag_error(tags: Seq<MediaTag>, j: int) -> bool {
    &&& 0 <= j < tags.len()
    &&& tag_error(tags[j]) is Some
    &&& forall|i: int| 0 <= i < j ==> tag_error(#[trigger] tags[i]) is None
}

/// The error a refused media answer gives, in the order of the checks: the
/// identifier, the score, the first refused kept tag, the title, the first
/// tag whose name repeats, then a blank studio.
pub open spec fn media_refusal(m: Media, e: DomainError) -> bool {
    let kept = kept_tags(m.tags@);
    let keys = kept.map_values(|t: MediaTag| lowercase_of(trimmed(t.name@)));
    if m.id == 0 {
        e == DomainError::InvalidValue { field: "work_id", reason: "must be greater than zero" }
    } else if m.score_bits is Some && range_check("rating", m.score_bits->0, TEN_BITS) is Err {
        e == range_check("rating", m.score_bits->0, TEN_BITS)->Err_0
    } else if exists|i: int| 0 <= i < kept.len() && tag_error(#[trigger] kept[i]) is Some {
        exists|j: int| #[trigger] first_tag_error(kept, j) && e == tag_error(kept[j])->0
    } else if text_check("work.title", media_title(m)) is Err {
        e == text_check("work.title", media_title(m))->Err_0
    } else if !keys_distinct(keys) {
        exists|j: int| #[trigger] is_first_duplicate(keys, j)
            && (e matches DomainError::DuplicateTag(n) && n@ == trimmed(kept[j].name@))
    } else {
        e == DomainError::EmptyText { field: "work.studio" }
    }
}

/// Maps an AniList format name.
pub fn map_format(value: &str) -> (format: Option<WorkFormat>)
    ensures
        format == format_named(value@),
{
    proof {
        reveal_strlit("TV");
        reveal_strlit("TV_SHORT");
        reveal_strlit("MOVIE");
        reveal_strlit("OVA");
        reveal_strlit("ONA");
        reveal_strlit("SPECIAL");
        reveal_strlit("MUSIC");
    }
    if crate::text::text_equals(value, "TV") || crate::text::text_equals(value, "TV_SHORT") {
        Some(WorkFormat::Tv)
    } else if crate::text::text_equals(value, "MOVIE") {
        Some(WorkFormat::Movie)
    } else if crate::text::text_equals(value, "OVA") {
        Some(WorkFormat::Ova)
    } else if crate::text::text_equals(value, "ONA") {
        Some(WorkFormat::Ona)
    } else if crate::text::text_equals(value, "SPECIAL") {
        Some(WorkFormat::Special)
    } else if crate::text::text_equals(value, "MUSIC") {
        Some(WorkFormat::Music)
    } else {
        None
    }
}

fn title_of(media: &Media) -> (title: String)
    ensures
        title@ == media_title(*media),
{
    match &media.user_preferred_title {
        Some(t) => return t.clone(),
        None => {},
    }
    match &media.english_title {
        Some(t) => return t.clone(),
        None => {},
    }
    match &media.romaji_title {
        Some(t) => return t.clone(),
        None => {},
    }
    match &media.native_title {
        Some(t) => return t.clone(),
        None => {},
    }
    let prefix = "AniList #";
    proof { reveal_strlit("AniList #"); }
    let mut title = String::from_str(prefix);
    let number = crate::text::decimal(media.id);
    title.append(number.as_str());
    title
}

fn build_tags(tags: &Vec<MediaTag>) -> (result: Result<Vec<TagWeight>, DomainError>)
    ensures
        (forall|i: int| 0 <= i < kept_tags(tags@).len() ==> tag_valid(#[trigger] kept_tags(tags@)[i])) <==> result is Ok,
        result matches Err(e) ==> exists|j: int| #[trigger] first_tag_error(kept_tags(tags@), j) && e == tag_error(kept_tags(tags@)[j])->0,
        result matches Ok(built) ==> built@.len() == kept_tags(tags@).len()
            && forall|i: int| 0 <= i < built@.len() ==> (#[trigger] built@[i]).spec_name() == trimmed(kept_tags(tags@)[i].name@)
                && built@[i].spec_weight().spec_bits() == kept_tags(tags@)[i].weight_bits,
{
    let mut built: Vec<TagWeight> = Vec::new();
    let mut i: usize = 0;
    while i < tags.len()
        invariant
            i <= tags@.len(),
            forall|x: int| 0 <= x < kept_tags(tags@.take(i as int)).len() ==> tag_valid(#[trigger] kept_tags(tags@.take(i as int))[x]),
            built@.len() == kept_tags(tags@.take(i as int)).len(),
            forall|x: int| 0 <= x < built@.len() ==> (#[trigger] built@[x]).spec_name() == trimmed(kept_tags(tags@.take(i as int))[x].name@)
                && built@[x].spec_weight().spec_bits() == kept_tags(tags@.take(i as int))[x].weight_bits,
        decreases tags.len() - i,
    {
        let tag = &tags[i];
        let ghost before = tags@.take(i as int);
        let ghost after = tags@.take(i + 1);
        assert(after.drop_last() =~= before);
        assert(after.last() == *tag);
        if !tag.is_media_spoiler && tag.rank > 0 {
            let weight = match Weight::new(tag.weight_bits) {
                Ok(w) => w,
                Err(e) => {
                    proof {
                        lemma_kept_tags_prefix(tags@, i + 1, (kept_tags(after).len() - 1) as int);
                        lemma_first_tag_error(tags@, i as int);
                    }
                    return Err(e);
                },
            };
            let made = TagWeight::new(tag.name.clone(), weight);
            match made {
                Ok(t) => {
                    built.push(t);
                },
                Err(e) => {
                    proof {
                        lemma_kept_tags_prefix(tags@, i + 1, (kept_tags(after).len() - 1) as int);
                        lemma_first_tag_error(tags@, i as int);
                    }
                    return Err(e);
                },
            }
        }
        i = i + 1;
    }
    assert(tags@.take(tags@.len() as int) =~= tags@);
    Ok(built)
}

/// A refused tag after valid kept tags is the first refused kept tag.
proof fn lemma_first_tag_error(tags: Seq<MediaTag>, i: int)
    requires
        0 <= i < tags.len(),
        tag_kept(tags[i]),
        tag_error(tags[i]) is Some,
        forall|x: int| 0 <= x < kept_tags(tags.take(i)).len() ==> tag_valid(#[trigger] kept_tags(tags.take(i))[x]),
    ensures
        first_tag_error(kept_tags(tags), kept_tags(tags.take(i)).len() as int),
        kept_tags(tags)[kept_tags(tags.take(i)).len() as int] == tags[i],
{
    let before = tags.take(i);
    let after = tags.take(i + 1);
    assert(after.drop_last() =~= before);
    assert(after.last() == tags[i]);
    let j = kept_tags(before).len() as int;
    assert(kept_tags(after) == kept_tags(before).push(tags[i]));
    lemma_kept_tags_prefix(tags, i + 1, j);
    assert forall|x: int| 0 <= x < j implies tag_error(#[trigger] kept_tags(tags)[x]) is None by {
        lemma_kept_tags_prefix(tags, i, x);
        assert(tag_valid(kept_tags(before)[x]));
    }
}

/// A kept tag of a prefix is a kept tag of the whole answer, at the same place.
proof fn lemma_kept_tags_prefix(tags: Seq<MediaTag>, k: int, x: int)
    requires
        0 <= k <= tags.len(),
        0 <= x < kept_tags(tags.take(k)).len(),
    ensures
        x < kept_tags(tags).len(),
        kept_tags(tags)[x] == kept_tags(tags.take(k))[x],
    decreases tags.len() - k,
{
    if k < tags.len() {
        assert(tags.take(k + 1).drop_last() =~= tags.take(k));
        lemma_kept_tags_prefix(tags, k + 1, x);
    } else {
        assert(tags.take(k) =~= tags);
    }
}

/// The normalized work that a valid media answer gives: its identifier,
/// trimmed title and score, its kept tags by trimmed name and weight, the
/// runtime, format and release year AniList gives, and its studios trimmed;
/// available, with no prerequisite and no franchise.
pub open spec fn normalized_from(media: Media, work: NormalizedWork) -> bool {
    let kept = kept_tags(media.tags@);
    &&& work.spec_core().id.spec_value() == media.id
    &&& work.spec_core().title == trimmed(media_title(media))
    &&& (match (work.spec_core().global_score, media.score_bits) {
        (Some(r), Some(b)) => r.spec_bits() == b,
        (None, None) => true,
        _ => false,
    })
    &&& work.spec_core().tags.map_values(|t: TagWeight| (t.spec_name(), t.spec_weight().spec_bits())).to_multiset()
        =~= kept.map_values(|t: MediaTag| (trimmed(t.name@), t.weight_bits)).to_multiset()
    &&& (match (work.spec_facts().runtime_minutes, media_runtime(media)) {
        (Some(r), Some(m)) => r.spec_value() == m,
        (None, None) => true,
        _ => false,
    })
    &&& work.spec_facts().format == (match media.format { Some(f) => format_named(f@), None => None::<WorkFormat> })
    &&& (match (work.spec_facts().release_year, media_year(media)) {
        (Some(y), Some(m)) => y.spec_value() == m,
        (None, None) => true,
        _ => false,
    })
    &&& work.spec_facts().available
    &&& work.spec_facts().prerequisites.len() == 0
    &&& work.spec_facts().franchise is None
    &&& work.spec_facts().studios == media.studios@.map_values(|s: String| trimmed(s@))
}

/// Turns a media answer into a normalized work: identifier, title, score and
/// kept tags first, then the runtime, the format, the release year and the
/// main studios when AniList gives them.
#[verifier::rlimit(40)]
pub fn normalize_media(media: Media) -> (result: Result<NormalizedWork, DomainError>)
    ensures
        media.id == 0 ==> result == Err::<NormalizedWork, DomainError>(DomainError::InvalidValue {
            field: "work_id",
            reason: "must be greater than zero",
        }),
        result is Ok <==> media_valid(media),
        result matches Err(e) ==> media_refusal(media, e),
        result matches Ok(work) ==> normalized_from(media, work),
{
    let id = WorkId::new(media.id)?;
    let title = title_of(&media);
    let score = match media.score_bits {
        Some(bits) => Some(Rating::new(bits)?),
        None => None,
    };
    let tags = build_tags(&media.tags)?;
    let ghost built = tags@;
    proof {
        let kept = kept_tags(media.tags@);
        assert(tag_keys(built) =~= kept.map_values(|t: MediaTag| lowercase_of(trimmed(t.name@))));
        assert forall|i: int| 0 <= i < kept.len() implies tag_error(#[trigger] kept[i]) is None by {
            assert(tag_valid(kept[i]));
        }
    }
    let mut work = NormalizedWork::new(id, title, score, tags)?;
    proof {
        let kept = kept_tags(media.tags@);
        assert(built.map_values(|t: TagWeight| (t.spec_name(), t.spec_weight().spec_bits()))
            =~= kept.map_values(|t: MediaTag| (trimmed(t.name@), t.weight_bits)));
        crate::sort::lemma_map_multiset(work.spec_core().tags, built, |t: TagWeight| (t.spec_name(), t.spec_weight().spec_bits()));
    }
    match (media.duration, media.episodes) {
        (Some(duration), Some(episodes)) => {
            match duration.checked_mul(episodes) {
                Some(total) => {
                    if total > 0 {
                        let runtime = match RuntimeMinutes::new(total) {
                            Ok(r) => r,
                            Err(_) => vstd::pervasive::unreached(),
                        };
                        work = work.with_runtime_minutes(runtime);
                    }
                },
                None => {},
            }
        },
        (Some(duration), None) => {
            if duration > 0 {
                let runtime = match RuntimeMinutes::new(duration) {
                    Ok(r) => r,
                    Err(_) => vstd::pervasive::unreached(),
                };
                work = work.with_runtime_minutes(runtime);
            }
        },
        _ => {},
    }
    match &media.format {
        Some(name) => {
            match map_format(name.as_str()) {
                Some(format) => {
                    work = work.with_format(format);
                },
                None => {},
            }
        },
        None => {},
    }
    match media.start_year {
        Some(year) => {
            if 1900 <= year && year <= 65535 {
                let kept_year = match ReleaseYear::new(year as u16) {
                    Ok(y) => y,
                    Err(_) => vstd::pervasive::unreached(),
                };
                work = work.with_release_year(kept_year);
            }
        },
        None => {},
    }
    let studios = media.studios;
    work.with_studios(studios)
}

/// The GraphQL failure of an answer: its messages joined by `; `, or
/// nothing when there is none.
pub open spec fn joined_messages(messages: Seq<Seq<char>>) -> Seq<char>
    decreases messages.len(),
{
    if messages.len() == 0 {
        Seq::empty()
    } else if messages.len() == 1 {
        messages[0]
    } else {
        joined_messages(messages.drop_last()) + "; "@ + messages.last()
    }
}

/// Joins the GraphQL error messages of an answer; `None` when there is none.
pub fn graphql_failure(messages: &Vec<String>) -> (failure: Option<String>)
    ensures
        messages@.len() == 0 ==> failure is None,
        messages@.len() > 0 ==> (failure matches Some(f) && f@ == joined_messages(messages@.map_values(|s: String| s@))),
{
    if messages.len() == 0 {
        return None;
    }
    let ghost texts = messages@.map_values(|s: String| s@);
    let separator = "; ";
    proof { reveal_strlit("; "); }
    let mut joined = messages[0].clone();
    assert(texts.take(1) =~= seq![texts[0]]);
    let mut i: usize = 1;
    while i < messages.len()
        invariant
            1 <= i <= messages@.len(),
            texts == messages@.map_values(|s: String| s@),
            separator@ == "; "@,
            joined@ == joined_messages(texts.take(i as int)),
        decreases messages.len() - i,
    {
        joined.append(separator);
        joined.append(messages[i].as_str());
        assert(texts.take(i + 1).drop_last() =~= texts.take(i as int));
        i = i + 1;
    }
    assert(texts.take(messages@.len() as int) =~= texts);
    Some(joined)
}

/// A page request: at least page 1, between 1 and 50 results per page.
pub fn page_request(page: u32, per_page: u8) -> (request: (u32, u8))
    ensures
        request.0 == if page < 1 { 1 } else { page },
        request.1 == if per_page < 1 { 1 } else if per_page > 50 { 50 } else { per_page },
{
    let per_page = if per_page < 1 { 1 } else if per_page > 50 { 50 } else { per_page };
    let page = if page < 1 { 1 } else { page };
    (page, per_page)
}

/// The SHA-256 digest of some bytes.
pub uninterp spec fn sha256_of(bytes: Seq<u8>) -> Seq<u8>;

/// `sha2::Sha256::digest`: the 32-byte digest of the bytes.
#[verifier::external_body]
fn sha256(bytes: &Vec<u8>) -> (digest: Vec<u8>)
    ensures
        digest@ == sha256_of(bytes@),
        digest@.len() == 32,
{
    Sha256::digest(bytes.as_slice()).to_vec()
}

/// A lowercase hexadecimal digit.
pub open spec fn hex_digit(d: u8) -> char {
    if d < 10 { ((d + 48) as u8) as char } else { ((d + 87) as u8) as char }
}

/// The lowercase hexadecimal text of some bytes, two digits per byte.
pub open spec fn hex_of(bytes: Seq<u8>) -> Seq<char>
    decreases bytes.len(),
{
    if bytes.len() == 0 {
        Seq::empty()
    } else {
        hex_of(bytes.drop_last()) + seq![hex_digit(bytes.last() / 16), hex_digit(bytes.last() % 16)]
    }
}

fn hex_str(d: u8) -> (s: &'static str)
    requires
        d < 16,
    ensures
        s@ == seq![hex_digit(d)],
{
    proof {
        reveal_strlit("0"); reveal_strlit("1"); reveal_strlit("2"); reveal_strlit("3");
        reveal_strlit("4"); reveal_strlit("5"); reveal_strlit("6"); reveal_strlit("7");
        reveal_strlit("8"); reveal_strlit("9"); reveal_strlit("a"); reveal_strlit("b");
        reveal_strlit("c"); reveal_strlit("d"); reveal_strlit("e"); reveal_strlit("f");
    }
    let s = match d {
        0 => "0", 1 => "1", 2 => "2", 3 => "3", 4 => "4", 5 => "5", 6 => "6", 7 => "7",
        8 => "8", 9 => "9", 10 => "a", 11 => "b", 12 => "c", 13 => "d", 14 => "e", _ => "f",
    };
    assert(s@ =~= seq![hex_digit(d)]);
    s
}

fn hex_text(bytes: &Vec<u8>) -> (text: String)
    ensures
        text@ == hex_of(bytes@),
{
    let mut text = String::new();
    let mut i: usize = 0;
    while i < bytes.len()
        invariant
            i <= bytes@.len(),
            text@ == hex_of(bytes@.take(i as int)),
        decreases bytes.len() - i,
    {
        let b = bytes[i];
        text.append(hex_str(b / 16));
        text.append(hex_str(b % 16));
        assert(bytes@.take(i + 1).drop_last() =~= bytes@.take(i as int));
        i = i + 1;
    }
    assert(bytes@.take(bytes@.len() as int) =~= bytes@);
    text
}

/// The little-endian bytes of a page number.
pub open spec fn le_bytes(n: u32) -> Seq<u8> {
    seq![(n % 256) as u8, ((n / 256) % 256) as u8, ((n / 65536) % 256) as u8, (n / 16777216) as u8]
}

/// The bytes hashed for a cache key: the lowercase trimmed search text, the
/// page number in little-endian order and the page size.
pub open spec fn cache_key_bytes(search_bytes: Seq<u8>, page: u32, per_page: u8) -> Seq<u8> {
    search_bytes + le_bytes(page) + seq![per_page]
}

/// Joins a file name to a directory as a relative path component.
pub open spec fn joined_path(directory: Seq<char>, name: Seq<char>) -> Seq<char> {
    if directory.len() == 0 {
        name
    } else if directory.last() == '/' {
        directory + name
    } else {
        directory + seq!['/'] + name
    }
}

/// A cache of raw GraphQL answers, with the age after which they expire.
#[derive(Debug, Clone, PartialEq)]
pub struct CatalogCache {
    directory: String,
    max_age_secs: u64,
}

impl CatalogCache {
    /// The directory of the cache files.
    pub closed spec fn spec_directory(self) -> Seq<char> {
        self.directory@
    }

    /// The age, in seconds, after which an answer expires.
    pub closed spec fn spec_max_age(self) -> u64 {
        self.max_age_secs
    }

    /// A cache in a directory, whose answers expire after `max_age_secs`.
    pub fn new(directory: String, max_age_secs: u64) -> (cache: CatalogCache)
        ensures
            cache.spec_directory() == directory@,
            cache.spec_max_age() == max_age_secs,
    {
        CatalogCache { directory, max_age_secs }
    }

    /// The directory of the cache files.
    pub fn directory(&self) -> (directory: &str)
        ensures
            directory@ == self.spec_directory(),
    {
        self.directory.as_str()
    }

    /// An answer fetched at `fetched_at_unix` is still served at `now_unix`
    /// unless more than the maximal age has passed.
    pub fn is_fresh(&self, fetched_at_unix: u64, now_unix: u64) -> (fresh: bool)
        ensures
            fresh == !((if now_unix >= fetched_at_unix { now_unix - fetched_at_unix } else { 0 }) > self.spec_max_age()),
    {
        !(now_unix.saturating_sub(fetched_at_unix) > self.max_age_secs)
    }

    /// The cache file of a search page: the hexadecimal SHA-256 of the key
    /// bytes, with the `.json` extension, in the cache directory.
    pub fn path_for(&self, search: &str, page: u32, per_page: u8) -> (path: String)
        ensures
            path@ == joined_path(
                self.spec_directory(),
                hex_of(sha256_of(cache_key_bytes(
                    vstd::utf8::encode_utf8(lowercase_of(crate::text::trimmed(search@))),
                    page,
                    per_page,
                ))) + ".json"@,
            ),
    {
        let key = crate::text::lowercase(crate::text::trim(search).as_str());
        let text_bytes = key.as_str().as_bytes();
        let mut bytes: Vec<u8> = Vec::new();
        let mut i: usize = 0;
        while i < text_bytes.len()
            invariant
                i <= text_bytes@.len(),
                bytes@ == text_bytes@.take(i as int),
            decreases text_bytes.len() - i,
        {
            bytes.push(text_bytes[i]);
            assert(text_bytes@.take(i + 1) =~= text_bytes@.take(i as int).push(text_bytes@[i as int]));
            i = i + 1;
        }
        assert(text_bytes@.take(text_bytes@.len() as int) =~= text_bytes@);
        bytes.push((page % 256) as u8);
        bytes.push(((page / 256) % 256) as u8);
        bytes.push(((page / 65536) % 256) as u8);
        bytes.push((page / 16777216) as u8);
        bytes.push(per_page);
        assert(bytes@ =~= cache_key_bytes(text_bytes@, page, per_page));
        let digest = sha256(&bytes);
        let mut name = hex_text(&digest);
        let extension = ".json";
        proof { reveal_strlit(".json"); }
        name.append(extension);
        let mut path = String::new();
        let n = self.directory.as_str().unicode_len();
        if n == 0 {
            path.append(name.as_str());
        } else if self.directory.as_str().get_char(n - 1) == '/' {
            path.append(self.directory.as_str());
            path.append(name.as_str());
        } else {
            let slash = "/";
            proof { reveal_strlit("/"); }
            path.append(self.directory.as_str());
            path.append(slash);
            path.append(name.as_str());
        }
        path
    }
}

/// A failure of a catalog answer that the library can tell.
#[derive(Debug, Clone, PartialEq)]
pub enum CatalogError {
    GraphQl(String),
    Domain(DomainError),
}

/// Normalizes AniList answers without any network access.
pub struct AniListNormalizer;

impl AniListNormalizer {
    /// Normalizes a decoded answer: GraphQL errors are reported joined; an
    /// answer without data holds no work; otherwise every media is
    /// normalized in order, and the first refused media gives the error
    /// (see [`media_refusal`]).
    pub fn normalize_answer(messages: Vec<String>, media: Option<Vec<Media>>) -> (result: Result<Vec<NormalizedWork>, CatalogError>)
        ensures
            messages@.len() > 0 ==> (result matches Err(CatalogError::GraphQl(m)) && m@ == joined_messages(messages@.map_values(|s: String| s@))),
            messages@.len() == 0 ==> match media {
                Some(all) => ((forall|i: int| 0 <= i < all@.len() ==> media_valid(#[trigger] all@[i])) <==> result is Ok)
                    && (result matches Ok(works) ==> works@.len() == all@.len()
                        && forall|i: int| 0 <= i < works@.len() ==> normalized_from(all@[i], #[trigger] works@[i]))
                    && (result matches Err(e) ==> exists|i: int| 0 <= i < all@.len()
                        && (forall|x: int| 0 <= x < i ==> media_valid(#[trigger] all@[x]))
                        && !media_valid(#[trigger] all@[i])
                        && (e matches CatalogError::Domain(d) && media_refusal(all@[i], d))),
                None => result matches Ok(works) && works@.len() == 0,
            },
    {
        match graphql_failure(&messages) {
            Some(joined) => return Err(CatalogError::GraphQl(joined)),
            None => {},
        }
        let all = match media {
            Some(all) => all,
            None => return Ok(Vec::new()),
        };
        let ghost given = all@;
        assert(given.len() == all.len());
        let mut rest = all;
        let mut works: Vec<NormalizedWork> = Vec::new();
        let mut i: usize = 0;
        while rest.len() > 0
            invariant
                messages@.len() == 0,
                media matches Some(m) && m@ == given,
                given.len() <= usize::MAX,
                i == works@.len(),
                i + rest@.len() == given.len(),
                rest@ == given.subrange(i as int, given.len() as int),
                forall|x: int| 0 <= x < i ==> media_valid(#[trigger] given[x]),
                forall|x: int| 0 <= x < i ==> normalized_from(given[x], #[trigger] works@[x]),
            decreases rest.len(),
        {
            let item = rest.remove(0);
            assert(item == given[i as int]);
            match normalize_media(item) {
                Ok(work) => works.push(work),
                Err(e) => {
                    assert(!media_valid(given[i as int]));
                    return Err(CatalogError::Domain(e));
                },
            }
            assert(rest@ =~= given.subrange(i + 1, given.len() as int));
            i = i + 1;
        }
        Ok(works)
    }
}

/// The message of a refused catalog answer.
pub open spec fn catalog_message(e: CatalogError) -> Seq<char> {
    match e {
        CatalogError::GraphQl(messages) => "AniList returned GraphQL errors: "@ + messages@,
        CatalogError::Domain(inner) => "invalid normalized work: "@ + domain_message(inner),
    }
}

impl CatalogError {
    /// The message of the failure.
    pub fn message(&self) -> (text: String)
        ensures
            text@ == catalog_message(*self),
    {
        match self {
            CatalogError::GraphQl(messages) => {
                let mut text = String::from_str("AniList returned GraphQL errors: ");
                text.append(messages.as_str());
                text
            },
            CatalogError::Domain(inner) => {
                let mut text = String::from_str("invalid normalized work: ");
                text.append(inner.message().as_str());
                text
            },
        }
    }
}

} // verus!
