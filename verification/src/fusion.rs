//! The exact part of rank fusion: the one-based rank of each work in each
//! expert's ranking. The reciprocal-rank sums are binary64 computations made
//! by the caller.

use vstd::prelude::*;
use crate::domain::WorkId;

verus! {

/// The one-based rank of each position of a ranking, paired with its work.
pub fn rank_map(ranking: &[WorkId]) -> (ranks: Vec<(WorkId, usize)>)
    requires
        ranking@.len() < usize::MAX,
    ensures
        ranks@.len() == ranking@.len(),
        forall|i: int| 0 <= i < ranks@.len() ==> #[trigger] ranks@[i] == (ranking@[i], (i + 1) as usize),
{
    let mut ranks: Vec<(WorkId, usize)> = Vec::new();
    let mut i: usize = 0;
    while i < ranking.len()
        invariant
            ranking@.len() < usize::MAX,
            i <= ranking@.len(),
            ranks@.len() == i,
            forall|x: int| 0 <= x < i ==> #[trigger] ranks@[x] == (ranking@[x], (x + 1) as usize),
        decreases ranking.len() - i,
    {
        ranks.push((ranking[i], i + 1));
        i = i + 1;
    }
    ranks
}

/// The rank of a work: the rank of its last occurrence, as a map built from
/// the ranking keeps it; `None` when the work is not ranked.
pub fn rank_of(ranks: &Vec<(WorkId, usize)>, id: WorkId) -> (rank: Option<usize>)
    ensures
        match rank {
            Some(r) => exists|i: int| 0 <= i < ranks@.len() && ranks@[i].0 == id && ranks@[i].1 == r
                && forall|j: int| i < j < ranks@.len() ==> (#[trigger] ranks@[j]).0 != id,
            None => forall|j: int| 0 <= j < ranks@.len() ==> (#[trigger] ranks@[j]).0 != id,
        },
{
    let mut i: usize = ranks.len();
    while i > 0
        invariant
            i <= ranks@.len(),
            forall|j: int| i <= j < ranks@.len() ==> (#[trigger] ranks@[j]).0 != id,
        decreases i,
    {
        i = i - 1;
        if ranks[i].0 == id {
            return Some(ranks[i].1);
        }
    }
    None
}

} // verus!
