//! The request rules of the local HTTP API: default paging, the check on a
//! search text, the normalization of a library comment, how a new rating
//! enters the history, and which works a profile snapshot scores.

use vstd::prelude::*;
use crate::domain::{NormalizedWork, RatingRecord, WorkId};
use crate::import::OfflineDataset;
use crate::text::trimmed;

verus! {

/// The default page of a search.
pub fn one() -> (page: u32)
    ensures
        page == 1,
{
    1
}

/// The default page size of a search.
pub fn twenty() -> (per_page: u8)
    ensures
        per_page == 20,
{
    20
}

/// A search text is refused when nothing is left once trimmed.
pub fn search_text_is_blank(query: &str) -> (blank: bool)
    ensures
        blank == (trimmed(query@).len() == 0),
{
    let normalized = crate::text::trim(query);
    normalized.as_str().unicode_len() == 0
}

/// A comment is kept trimmed, and dropped when nothing is left.
pub fn normalize_comment(comment: Option<String>) -> (normalized: Option<String>)
    ensures
        match comment {
            Some(c) => if trimmed(c@).len() == 0 {
                normalized is None
            } else {
                normalized matches Some(n) && n@ == trimmed(c@)
            },
            None => normalized is None,
        },
{
    match comment {
        Some(value) => {
            let trimmed_value = crate::text::trim(value.as_str());
            if trimmed_value.as_str().unicode_len() == 0 {
                None
            } else {
                Some(trimmed_value)
            }
        },
        None => None,
    }
}

/// `i` is the position of the first rating of the work.
pub open spec fn first_rating_of(ratings: Seq<RatingRecord>, id: WorkId, i: int) -> bool {
    &&& 0 <= i < ratings.len()
    &&& ratings[i].spec_work_id() == id
    &&& forall|j: int| 0 <= j < i ==> (#[trigger] ratings[j]).spec_work_id() != id
}

/// Some rating is about the work.
pub open spec fn rates(ratings: Seq<RatingRecord>, id: WorkId) -> bool {
    exists|j: int| 0 <= j < ratings.len() && (#[trigger] ratings[j]).spec_work_id() == id
}

/// A new rating replaces the first rating of its work, or is appended when
/// the work has none.
pub fn replace_rating(ratings: Vec<RatingRecord>, rating: RatingRecord) -> (result: Vec<RatingRecord>)
    ensures
        rates(ratings@, rating.spec_work_id()) ==> exists|i: int| #[trigger] first_rating_of(ratings@, rating.spec_work_id(), i)
            && result@ == ratings@.update(i, rating),
        !rates(ratings@, rating.spec_work_id()) ==> result@ == ratings@.push(rating),
{
    let id = rating.work_id();
    let mut i: usize = 0;
    while i < ratings.len()
        invariant
            i <= ratings@.len(),
            id == rating.spec_work_id(),
            forall|j: int| 0 <= j < i ==> (#[trigger] ratings@[j]).spec_work_id() != id,
        decreases ratings.len() - i,
    {
        if ratings[i].work_id() == id {
            let mut result = ratings;
            result.set(i, rating);
            assert(first_rating_of(ratings@, id, i as int));
            return result;
        }
        i = i + 1;
    }
    let mut result = ratings;
    result.push(rating);
    result
}

/// The works of a catalog that no rating is about, in catalog order.
pub open spec fn unrated_in(works: Seq<NormalizedWork>, ratings: Seq<RatingRecord>) -> Seq<NormalizedWork>
    decreases works.len(),
{
    if works.len() == 0 {
        Seq::empty()
    } else {
        let rest = unrated_in(works.drop_last(), ratings);
        if rates(ratings, works.last().spec_id()) { rest } else { rest.push(works.last()) }
    }
}

/// A work is left unrated exactly when it is one of the works and no rating,
/// at any position, is about it.
pub proof fn lemma_unrated_members(works: Seq<NormalizedWork>, ratings: Seq<RatingRecord>, work: NormalizedWork)
    ensures
        unrated_in(works, ratings).contains(work) <==> {
            &&& works.contains(work)
            &&& forall|j: int| 0 <= j < ratings.len() ==> (#[trigger] ratings[j]).spec_work_id() != work.spec_id()
        },
    decreases works.len(),
{
    if works.len() > 0 {
        let rest = works.drop_last();
        let last = works.last();
        lemma_unrated_members(rest, ratings, work);
        assert(works.contains(work) <==> rest.contains(work) || last == work) by {
            if works.contains(work) {
                let i = choose|i: int| 0 <= i < works.len() && works[i] == work;
                if i < works.len() - 1 {
                    assert(rest[i] == work);
                }
            }
            if rest.contains(work) {
                let i = choose|i: int| 0 <= i < rest.len() && rest[i] == work;
                assert(works[i] == work);
            }
            if last == work {
                assert(works[works.len() - 1] == work);
            }
        }
        let before = unrated_in(rest, ratings);
        if rates(ratings, last.spec_id()) {
            assert(unrated_in(works, ratings) == before);
            if last == work {
                let j = choose|j: int| 0 <= j < ratings.len() && (#[trigger] ratings[j]).spec_work_id() == last.spec_id();
                assert(ratings[j].spec_work_id() == work.spec_id());
            }
        } else {
            assert(unrated_in(works, ratings) == before.push(last));
            assert(before.push(last).contains(work) <==> before.contains(work) || last == work) by {
                if before.push(last).contains(work) {
                    let i = choose|i: int| 0 <= i < before.push(last).len() && before.push(last)[i] == work;
                    if i < before.len() {
                        assert(before[i] == work);
                    }
                }
                if before.contains(work) {
                    let i = choose|i: int| 0 <= i < before.len() && before[i] == work;
                    assert(before.push(last)[i] == work);
                }
                if last == work {
                    assert(before.push(last)[before.len() as int] == work);
                }
            }
        }
    }
}

/// The works a profile snapshot scores: those of the catalog that are not rated.
pub fn unrated_works(dataset: &OfflineDataset) -> (works: Vec<NormalizedWork>)
    ensures
        works@.map_values(|w: NormalizedWork| w@)
            == unrated_in(dataset.spec_catalog(), dataset.spec_ratings()).map_values(|w: NormalizedWork| w@),
        forall|i: int| 0 <= i < works@.len() ==> {
            &&& dataset.spec_catalog().map_values(|w: NormalizedWork| w@).contains(#[trigger] works@[i]@)
            &&& forall|j: int| 0 <= j < dataset.spec_ratings().len() ==> (#[trigger] dataset.spec_ratings()[j]).spec_work_id() != works@[i].spec_id()
        },
        forall|k: int| 0 <= k < dataset.spec_catalog().len()
            && (forall|j: int| 0 <= j < dataset.spec_ratings().len() ==> (#[trigger] dataset.spec_ratings()[j]).spec_work_id() != dataset.spec_catalog()[k].spec_id())
            ==> works@.map_values(|w: NormalizedWork| w@).contains(#[trigger] dataset.spec_catalog()[k]@),
{
    let catalog = dataset.catalog();
    let ratings = dataset.ratings();
    let mut works: Vec<NormalizedWork> = Vec::new();
    let mut k: usize = 0;
    while k < catalog.len()
        invariant
            k <= catalog@.len(),
            catalog@ == dataset.spec_catalog(),
            ratings@ == dataset.spec_ratings(),
            works@.map_values(|w: NormalizedWork| w@) == unrated_in(catalog@.take(k as int), ratings@).map_values(|w: NormalizedWork| w@),
        decreases catalog.len() - k,
    {
        let id = catalog[k].id();
        let mut rated = false;
        let mut r: usize = 0;
        while r < ratings.len()
            invariant
                r <= ratings@.len(),
                rated == exists|j: int| 0 <= j < r && (#[trigger] ratings@[j]).spec_work_id() == id,
            decreases ratings.len() - r,
        {
            if ratings[r].work_id() == id {
                rated = true;
            }
            r = r + 1;
        }
        let ghost before = works@;
        proof {
            assert(catalog@.take(k + 1).drop_last() =~= catalog@.take(k as int));
            assert(catalog@.take(k + 1).last() == catalog@[k as int]);
        }
        if !rated {
            let copy = catalog[k].clone();
            works.push(copy);
            assert(works@.map_values(|w: NormalizedWork| w@) =~= before.map_values(|w: NormalizedWork| w@).push(copy@));
        }
        k = k + 1;
    }
    assert(catalog@.take(catalog@.len() as int) =~= catalog@);
    proof {
        let unrated = unrated_in(catalog@, ratings@);
        let views = works@.map_values(|w: NormalizedWork| w@);
        assert forall|i: int| 0 <= i < works@.len() implies {
            &&& dataset.spec_catalog().map_values(|w: NormalizedWork| w@).contains(#[trigger] works@[i]@)
            &&& forall|j: int| 0 <= j < dataset.spec_ratings().len() ==> (#[trigger] dataset.spec_ratings()[j]).spec_work_id() != works@[i].spec_id()
        } by {
            assert(views[i] == works@[i]@);
            assert(unrated.map_values(|w: NormalizedWork| w@)[i] == works@[i]@);
            let w = unrated[i];
            assert(w@ == works@[i]@);
            assert(unrated.contains(w));
            lemma_unrated_members(catalog@, ratings@, w);
            let c = choose|c: int| 0 <= c < catalog@.len() && catalog@[c] == w;
            assert(catalog@.map_values(|x: NormalizedWork| x@)[c] == works@[i]@);
            assert(w.spec_core() == works@[i].spec_core());
        }
        assert forall|k: int| 0 <= k < dataset.spec_catalog().len()
            && (forall|j: int| 0 <= j < dataset.spec_ratings().len() ==> (#[trigger] dataset.spec_ratings()[j]).spec_work_id() != dataset.spec_catalog()[k].spec_id())
            implies views.contains(#[trigger] dataset.spec_catalog()[k]@) by {
            let w = catalog@[k];
            assert(catalog@.contains(w));
            lemma_unrated_members(catalog@, ratings@, w);
            let i = choose|i: int| 0 <= i < unrated.len() && unrated[i] == w;
            assert(unrated.map_values(|x: NormalizedWork| x@)[i] == w@);
            assert(views[i] == w@);
        }
    }
    works
}

} // verus!
