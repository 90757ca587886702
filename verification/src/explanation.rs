//! The explanation of a score: its three best reasons and its two main
//! risks, drawn from the same contributions as its total.

use vstd::prelude::*;
use crate::domain::Contribution;
use crate::ieee::{less_than, total_order_key, ZERO_BITS};
use crate::text::{lex_less, lemma_lex_less_asymmetric, lemma_lex_less_transitive};

verus! {

broadcast use vstd::seq_lib::group_to_multiset_ensures;

/// The number of reasons an explanation gives.
pub const REASON_LIMIT: usize = 3;

/// The number of risks an explanation gives.
pub const RISK_LIMIT: usize = 2;

/// The pattern of a contribution's value.
pub open spec fn value_bits(c: Contribution) -> u64 {
    c.spec_value().spec_bits()
}

/// A reason is a contribution above zero; a risk, one below zero.
pub open spec fn counts_as(c: Contribution, reason: bool) -> bool {
    if reason { less_than(ZERO_BITS, value_bits(c)) } else { less_than(value_bits(c), ZERO_BITS) }
}

/// The key contributions are listed by: the larger value first among
/// reasons, the lower value first among risks.
pub open spec fn rank_key(c: Contribution, reason: bool) -> u64 {
    if reason { (u64::MAX - total_order_key(value_bits(c))) as u64 } else { total_order_key(value_bits(c)) }
}

/// `a` is listed strictly before `b`: by key, then by explanation text.
pub open spec fn listed_before(a: Contribution, b: Contribution, reason: bool) -> bool {
    ||| rank_key(a, reason) < rank_key(b, reason)
    ||| rank_key(a, reason) == rank_key(b, reason) && lex_less(a.spec_detail(), b.spec_detail())
}

/// No contribution is listed after one that comes strictly after it.
pub open spec fn in_listing_order(s: Seq<Contribution>, reason: bool) -> bool {
    forall|i: int, j: int| 0 <= i < j < s.len() ==> !listed_before(#[trigger] s[j], #[trigger] s[i], reason)
}

/// The reasons (or the risks) among contributions, in their order.
pub open spec fn of_kind(s: Seq<Contribution>, reason: bool) -> Seq<Contribution>
    decreases s.len(),
{
    if s.len() == 0 {
        Seq::empty()
    } else {
        let rest = of_kind(s.drop_last(), reason);
        if counts_as(s.last(), reason) { rest.push(s.last()) } else { rest }
    }
}

/// Two contributions that the listing order cannot tell apart: the same key
/// and the same explanation text.
pub open spec fn tied(a: Contribution, b: Contribution, reason: bool) -> bool {
    rank_key(a, reason) == rank_key(b, reason) && a.spec_detail() == b.spec_detail()
}

/// `listed` rearranges `given` through the positions `perm` (`listed[i]` is
/// `given[perm[i]]`, each position once) and keeps tied contributions in
/// their given order.
pub open spec fn stable_rearrangement(given: Seq<Contribution>, listed: Seq<Contribution>, reason: bool, perm: Seq<int>) -> bool {
    &&& perm.len() == listed.len()
    &&& listed.len() == given.len()
    &&& forall|i: int| 0 <= i < perm.len() ==> 0 <= #[trigger] perm[i] < given.len() && listed[i] == given[perm[i]]
    &&& forall|i: int, j: int| 0 <= i < j < perm.len() ==> #[trigger] perm[i] != #[trigger] perm[j]
    &&& forall|i: int, j: int| 0 <= i < j < perm.len() && tied(#[trigger] listed[i], #[trigger] listed[j], reason)
        ==> perm[i] < perm[j]
}

/// `chosen` is the head, of at most `limit` contributions, of the reasons
/// (or the risks) of `all` listed in order, tied contributions keeping the
/// order in which they were given.
pub open spec fn leading(all: Seq<Contribution>, reason: bool, limit: nat, chosen: Seq<Contribution>) -> bool {
    exists|listed: Seq<Contribution>| {
        &&& listed.to_multiset() =~= of_kind(all, reason).to_multiset()
        &&& #[trigger] in_listing_order(listed, reason)
        &&& exists|perm: Seq<int>| #[trigger] stable_rearrangement(of_kind(all, reason), listed, reason, perm)
        &&& chosen == listed.take(if listed.len() < limit { listed.len() as int } else { limit as int })
    }
}

proof fn lemma_listed_before_asymmetric(a: Contribution, b: Contribution, reason: bool)
    ensures
        !(listed_before(a, b, reason) && listed_before(b, a, reason)),
{
    lemma_lex_less_asymmetric(a.spec_detail(), b.spec_detail());
}

proof fn lemma_listed_before_transitive(a: Contribution, b: Contribution, c: Contribution, reason: bool)
    requires
        listed_before(a, b, reason),
        listed_before(b, c, reason),
    ensures
        listed_before(a, c, reason),
{
    if rank_key(a, reason) == rank_key(b, reason) && rank_key(b, reason) == rank_key(c, reason) {
        lemma_lex_less_transitive(a.spec_detail(), b.spec_detail(), c.spec_detail());
    }
}

fn rank_key_of(c: &Contribution, reason: bool) -> (key: u64)
    ensures
        key == rank_key(*c, reason),
{
    let k = crate::ieee::total_order_key_of(c.value().get());
    if reason { u64::MAX - k } else { k }
}

fn before(a: &Contribution, b: &Contribution, reason: bool) -> (result: bool)
    ensures
        result == listed_before(*a, *b, reason),
{
    let ka = rank_key_of(a, reason);
    let kb = rank_key_of(b, reason);
    ka < kb || (ka == kb && crate::text::text_less(a.detail(), b.detail()))
}

/// Lists the reasons (or the risks) of `all` in order, keeping equal ones
/// in their given order.
fn list_kind(all: &[Contribution], reason: bool) -> (listed: Vec<Contribution>)
    ensures
        listed@.to_multiset() =~= of_kind(all@, reason).to_multiset(),
        in_listing_order(listed@, reason),
        exists|perm: Seq<int>| stable_rearrangement(of_kind(all@, reason), listed@, reason, perm),
{
    let mut listed: Vec<Contribution> = Vec::new();
    let ghost mut perm: Seq<int> = Seq::empty();
    let mut k: usize = 0;
    while k < all.len()
        invariant
            k <= all@.len(),
            listed@.to_multiset() =~= of_kind(all@.take(k as int), reason).to_multiset(),
            in_listing_order(listed@, reason),
            stable_rearrangement(of_kind(all@.take(k as int), reason), listed@, reason, perm),
        decreases all.len() - k,
    {
        let c = &all[k];
        let bits = c.value().get();
        let keep = if reason { crate::ieee::lower(ZERO_BITS, bits) } else { crate::ieee::lower(bits, ZERO_BITS) };
        proof {
            assert(all@.take(k + 1).drop_last() =~= all@.take(k as int));
            assert(all@.take(k + 1).last() == all@[k as int]);
        }
        if keep {
            let mut p: usize = 0;
            while p < listed.len() && !before(c, &listed[p], reason)
                invariant
                    p <= listed@.len(),
                    forall|q: int| 0 <= q < p ==> !listed_before(*c, #[trigger] listed@[q], reason),
                decreases listed.len() - p,
            {
                p = p + 1;
            }
            let ghost prior = listed@;
            let ghost before_perm = perm;
            listed.insert(p, c.clone());
            proof {
                vstd::seq_lib::to_multiset_insert(prior, p as int, *c);
                assert(of_kind(all@.take(k + 1), reason) == of_kind(all@.take(k as int), reason).push(*c));
                let given = of_kind(all@.take(k as int), reason);
                let m = given.len() as int;
                perm = before_perm.insert(p as int, m);
                lemma_stable_insert(given, prior, reason, before_perm, p as int, *c);
                assert forall|i: int, j: int| 0 <= i < j < listed@.len() implies !listed_before(#[trigger] listed@[j], #[trigger] listed@[i], reason) by {
                    if j < p {
                        assert(listed@[i] == prior[i] && listed@[j] == prior[j]);
                    } else if j == p {
                        assert(listed@[i] == prior[i]);
                    } else if i > p {
                        assert(listed@[i] == prior[i - 1] && listed@[j] == prior[j - 1]);
                    } else if i == p {
                        assert(listed@[j] == prior[j - 1]);
                        assert(listed_before(*c, prior[p as int], reason));
                        lemma_listed_before_asymmetric(prior[p as int], *c, reason);
                        if listed_before(prior[j - 1], *c, reason) {
                            lemma_listed_before_transitive(prior[j - 1], *c, prior[p as int], reason);
                        }
                    } else {
                        assert(listed@[i] == prior[i] && listed@[j] == prior[j - 1]);
                    }
                }
            }
        } else {
            proof {
                assert(of_kind(all@.take(k + 1), reason) == of_kind(all@.take(k as int), reason));
            }
        }
        k = k + 1;
    }
    assert(all@.take(all@.len() as int) =~= all@);
    assert(stable_rearrangement(of_kind(all@, reason), listed@, reason, perm));
    listed
}

/// Inserting `c`, given last, before the first contribution listed after it
/// keeps a stable rearrangement stable.
proof fn lemma_stable_insert(given: Seq<Contribution>, prior: Seq<Contribution>, reason: bool, perm: Seq<int>, p: int, c: Contribution)
    requires
        stable_rearrangement(given, prior, reason, perm),
        in_listing_order(prior, reason),
        0 <= p <= prior.len(),
        forall|q: int| 0 <= q < p ==> !listed_before(c, #[trigger] prior[q], reason),
        p < prior.len() ==> listed_before(c, prior[p], reason),
    ensures
        stable_rearrangement(given.push(c), prior.insert(p, c), reason, perm.insert(p, given.len() as int)),
{
    let listed = prior.insert(p, c);
    let next = perm.insert(p, given.len() as int);
    let m = given.len() as int;
    assert forall|i: int| 0 <= i < next.len() implies 0 <= #[trigger] next[i] < given.push(c).len() && listed[i] == given.push(c)[next[i]] by {
        if i < p {
            assert(next[i] == perm[i] && listed[i] == prior[i]);
        } else if i > p {
            assert(next[i] == perm[i - 1] && listed[i] == prior[i - 1]);
        }
    }
    assert forall|i: int, j: int| 0 <= i < j < next.len() implies #[trigger] next[i] != #[trigger] next[j] by {
        if j < p {
            assert(next[i] == perm[i] && next[j] == perm[j]);
        } else if j == p {
            assert(next[i] == perm[i]);
        } else if i < p {
            assert(next[i] == perm[i] && next[j] == perm[j - 1]);
        } else if i == p {
            assert(next[j] == perm[j - 1]);
        } else {
            assert(next[i] == perm[i - 1] && next[j] == perm[j - 1]);
        }
    }
    assert forall|i: int, j: int| 0 <= i < j < next.len() && tied(#[trigger] listed[i], #[trigger] listed[j], reason)
        implies next[i] < next[j] by {
        if j < p {
            assert(next[i] == perm[i] && next[j] == perm[j] && listed[i] == prior[i] && listed[j] == prior[j]);
        } else if j == p {
            assert(next[i] == perm[i]);
        } else if i < p {
            assert(next[i] == perm[i] && next[j] == perm[j - 1] && listed[i] == prior[i] && listed[j] == prior[j - 1]);
        } else if i == p {
            assert(listed[j] == prior[j - 1]);
            assert(listed_before(c, prior[p], reason));
            lemma_lex_less_asymmetric(c.spec_detail(), c.spec_detail());
            if j - 1 == p {
                assert(false);
            } else {
                assert(listed_before(prior[j - 1], prior[p], reason));
                assert(!listed_before(prior[j - 1], prior[p], reason));
            }
        } else {
            assert(next[i] == perm[i - 1] && next[j] == perm[j - 1] && listed[i] == prior[i - 1] && listed[j] == prior[j - 1]);
        }
    }
}

/// The reasons and the risks shown with a score.
#[derive(Debug, Clone, PartialEq)]
pub struct ScoreExplanation {
    reasons: Vec<Contribution>,
    risks: Vec<Contribution>,
}

impl ScoreExplanation {
    /// The reasons given.
    pub closed spec fn spec_reasons(self) -> Seq<Contribution> {
        self.reasons@
    }

    /// The risks given.
    pub closed spec fn spec_risks(self) -> Seq<Contribution> {
        self.risks@
    }

    /// Explains a score by its contributions: the three largest
    /// contributions above zero, largest first, and the two lowest below
    /// zero, lowest first; equal values are listed by explanation text, and
    /// contributions equal in both keep the order in which they were given.
    pub fn from_contributions(contributions: &[Contribution]) -> (explanation: ScoreExplanation)
        ensures
            leading(contributions@, true, REASON_LIMIT as nat, explanation.spec_reasons()),
            leading(contributions@, false, RISK_LIMIT as nat, explanation.spec_risks()),
    {
        let mut reasons = list_kind(contributions, true);
        let ghost listed_reasons = reasons@;
        reasons.truncate(REASON_LIMIT);
        let mut risks = list_kind(contributions, false);
        let ghost listed_risks = risks@;
        risks.truncate(RISK_LIMIT);
        proof {
            assert(reasons@ == listed_reasons.take(if listed_reasons.len() < REASON_LIMIT { listed_reasons.len() as int } else { REASON_LIMIT as int }));
            assert(risks@ == listed_risks.take(if listed_risks.len() < RISK_LIMIT { listed_risks.len() as int } else { RISK_LIMIT as int }));
            assert(in_listing_order(listed_reasons, true));
            assert(in_listing_order(listed_risks, false));
            let pr = choose|perm: Seq<int>| stable_rearrangement(of_kind(contributions@, true), listed_reasons, true, perm);
            let pk = choose|perm: Seq<int>| stable_rearrangement(of_kind(contributions@, false), listed_risks, false, perm);
            assert(stable_rearrangement(of_kind(contributions@, true), listed_reasons, true, pr));
            assert(stable_rearrangement(of_kind(contributions@, false), listed_risks, false, pk));
        }
        ScoreExplanation { reasons, risks }
    }

    /// The reasons given, best first.
    pub fn reasons(&self) -> (reasons: &[Contribution])
        ensures
            reasons@ == self.spec_reasons(),
    {
        self.reasons.as_slice()
    }

    /// The risks given, worst first.
    pub fn risks(&self) -> (risks: &[Contribution])
        ensures
            risks@ == self.spec_risks(),
    {
        self.risks.as_slice()
    }
}

} // verus!
