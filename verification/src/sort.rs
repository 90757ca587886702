//! A stable sort of items by a three-part integer key.

use vstd::prelude::*;
use vstd::multiset::Multiset;

verus! {

broadcast use vstd::seq_lib::group_to_multiset_ensures;

/// Lexicographic order of three-part keys.
pub open spec fn key_less(a: (u64, u64, u64), b: (u64, u64, u64)) -> bool {
    ||| a.0 < b.0
    ||| a.0 == b.0 && a.1 < b.1
    ||| a.0 == b.0 && a.1 == b.1 && a.2 < b.2
}

/// No item is preceded by an item with a larger key.
pub open spec fn keys_sorted<T>(s: Seq<((u64, u64, u64), T)>) -> bool {
    forall|i: int, j: int| 0 <= i < j < s.len() ==> !key_less(#[trigger] s[j].0, #[trigger] s[i].0)
}

/// Computes [`key_less`].
pub fn less(a: (u64, u64, u64), b: (u64, u64, u64)) -> (result: bool)
    ensures
        result == key_less(a, b),
{
    a.0 < b.0 || (a.0 == b.0 && a.1 < b.1) || (a.0 == b.0 && a.1 == b.1 && a.2 < b.2)
}

/// Sorts items by key, keeping equal keys in their input order; the result
/// holds exactly the input items.
pub fn sort_by_key<T>(items: Vec<((u64, u64, u64), T)>) -> (sorted: Vec<((u64, u64, u64), T)>)
    ensures
        keys_sorted(sorted@),
        sorted@.to_multiset() =~= items@.to_multiset(),
        sorted@.len() == items@.len(),
{
    let mut remaining = items;
    let mut sorted: Vec<((u64, u64, u64), T)> = Vec::new();
    let ghost original = remaining@;
    while remaining.len() > 0
        invariant
            sorted@.to_multiset().add(remaining@.to_multiset()) =~= original.to_multiset(),
            keys_sorted(sorted@),
            forall|i: int, k: int|
                0 <= i < sorted@.len() && 0 <= k < remaining@.len() ==> !key_less(
                    #[trigger] remaining@[k].0,
                    #[trigger] sorted@[i].0,
                ),
        decreases remaining.len(),
    {
        let mut best: usize = 0;
        let mut k: usize = 1;
        while k < remaining.len()
            invariant
                0 <= best < remaining@.len(),
                1 <= k <= remaining@.len(),
                forall|m: int| 0 <= m < k ==> !key_less(#[trigger] remaining@[m].0, remaining@[best as int].0),
            decreases remaining.len() - k,
        {
            if less(remaining[k].0, remaining[best].0) {
                best = k;
            }
            k = k + 1;
        }
        let ghost before = remaining@;
        let item = remaining.remove(best);
        proof {
            assert(before.remove(best as int) =~= remaining@);
            assert(remaining@.to_multiset() =~= before.to_multiset().remove(item));
            assert(before.to_multiset().count(item) > 0) by {
                assert(before[best as int] == item);
                assert(before.contains(item));
            }
        }
        let ghost prev_sorted = sorted@;
        sorted.push(item);
        proof {
            assert(sorted@ =~= prev_sorted.push(item));
            assert(sorted@.to_multiset() =~= prev_sorted.to_multiset().insert(item));
            assert forall|i: int, k2: int|
                0 <= i < sorted@.len() && 0 <= k2 < remaining@.len() implies !key_less(
                    #[trigger] remaining@[k2].0,
                    #[trigger] sorted@[i].0,
                ) by {
                let src = if k2 < best { k2 } else { k2 + 1 };
                assert(remaining@[k2] == before[src]);
                if i < prev_sorted.len() {
                    assert(sorted@[i] == prev_sorted[i]);
                } else {
                    assert(sorted@[i].0 == before[best as int].0);
                }
            }
            assert forall|i: int, j: int| 0 <= i < j < sorted@.len() implies !key_less(
                #[trigger] sorted@[j].0,
                #[trigger] sorted@[i].0,
            ) by {
                if j < prev_sorted.len() {
                    assert(sorted@[j] == prev_sorted[j]);
                    assert(sorted@[i] == prev_sorted[i]);
                } else {
                    assert(sorted@[j] == before[best as int]);
                    assert(sorted@[i] == prev_sorted[i]);
                }
            }
        }
    }
    proof {
        assert(remaining@.to_multiset() =~= Multiset::empty());
        assert(sorted@.to_multiset() =~= original.to_multiset());
        assert(sorted@.len() == sorted@.to_multiset().len());
        assert(original.len() == original.to_multiset().len());
    }
    sorted
}

/// The items of keyed pairs, in order.
pub open spec fn items_of<T>(s: Seq<((u64, u64, u64), T)>) -> Seq<T> {
    s.map_values(|p: ((u64, u64, u64), T)| p.1)
}

/// Drops the keys, keeping the items in order.
pub fn strip_keys<T>(pairs: Vec<((u64, u64, u64), T)>) -> (items: Vec<T>)
    ensures
        items@ == items_of(pairs@),
{
    let mut pairs = pairs;
    let ghost original = pairs@;
    let mut items: Vec<T> = Vec::new();
    while pairs.len() > 0
        invariant
            items@.len() + pairs@.len() == original.len(),
            pairs@ == original.subrange(items@.len() as int, original.len() as int),
            forall|k: int| 0 <= k < items@.len() ==> #[trigger] items@[k] == original[k].1,
        decreases pairs.len(),
    {
        let ghost before = pairs@;
        let (_, item) = pairs.remove(0);
        proof {
            assert(pairs@ =~= original.subrange(items@.len() as int + 1, original.len() as int));
        }
        items.push(item);
    }
    assert(items@ =~= items_of(original));
    items
}

/// Two sequences with the same elements keep the same elements once mapped.
pub proof fn lemma_map_multiset<A, B>(a: Seq<A>, b: Seq<A>, f: spec_fn(A) -> B)
    requires
        a.to_multiset() =~= b.to_multiset(),
    ensures
        a.map_values(f).to_multiset() =~= b.map_values(f).to_multiset(),
    decreases a.len(),
{
    if a.len() == 0 {
        assert(b.len() == b.to_multiset().len());
        assert(a.len() == a.to_multiset().len());
        assert(b.map_values(f) =~= Seq::<B>::empty());
        assert(a.map_values(f) =~= Seq::<B>::empty());
    } else {
        let x = a.last();
        assert(a.to_multiset().count(x) > 0) by {
            assert(a.contains(x)) by { assert(a[a.len() - 1] == x); }
        }
        assert(b.contains(x));
        let i = choose|i: int| 0 <= i < b.len() && b[i] == x;
        let rest_a = a.drop_last();
        let rest_b = b.remove(i);
        assert(a =~= rest_a.push(x));
        assert(rest_a.to_multiset() =~= a.to_multiset().remove(x)) by {
            assert(rest_a.push(x).to_multiset() =~= rest_a.to_multiset().insert(x));
        }
        assert(rest_b.to_multiset() =~= b.to_multiset().remove(x));
        lemma_map_multiset(rest_a, rest_b, f);
        assert(a.map_values(f) =~= rest_a.map_values(f).push(f(x)));
        assert(b.map_values(f).remove(i) =~= rest_b.map_values(f));
        assert(b.map_values(f)[i] == f(x));
        assert(rest_b.map_values(f).to_multiset() =~= b.map_values(f).to_multiset().remove(f(x)));
        assert(b.map_values(f).to_multiset().count(f(x)) > 0) by {
            assert(b.map_values(f).contains(f(x)));
        }
    }
}

/// An element of a sequence is an element of any sequence with the same elements.
pub proof fn lemma_member_of_permutation<T>(a: Seq<T>, b: Seq<T>, i: int) -> (j: int)
    requires
        a.to_multiset() =~= b.to_multiset(),
        0 <= i < a.len(),
    ensures
        0 <= j < b.len(),
        b[j] == a[i],
{
    assert(a.contains(a[i]));
    assert(a.to_multiset().count(a[i]) > 0);
    assert(b.to_multiset().count(a[i]) > 0);
    assert(b.contains(a[i]));
    choose|j: int| 0 <= j < b.len() && b[j] == a[i]
}

/// Two sequences with the same elements, each in strictly increasing key
/// order, are the same sequence.
pub proof fn lemma_strictly_sorted_unique<T>(a: Seq<T>, b: Seq<T>, key: spec_fn(T) -> int)
    requires
        a.to_multiset() =~= b.to_multiset(),
        forall|i: int, j: int| 0 <= i < j < a.len() ==> key(#[trigger] a[i]) < key(#[trigger] a[j]),
        forall|i: int, j: int| 0 <= i < j < b.len() ==> key(#[trigger] b[i]) < key(#[trigger] b[j]),
    ensures
        a == b,
    decreases a.len(),
{
    assert(a.len() == a.to_multiset().len());
    assert(b.len() == b.to_multiset().len());
    if a.len() == 0 {
        assert(a =~= b);
    } else {
        let j = lemma_member_of_permutation(a, b, 0);
        let k = lemma_member_of_permutation(b, a, 0);
        if j > 0 {
            assert(key(b[0]) < key(b[j]));
            if k > 0 {
                assert(key(a[0]) < key(a[k]));
            }
        }
        assert(a[0] == b[0]);
        assert(a.remove(0).to_multiset() =~= a.to_multiset().remove(a[0]));
        assert(b.remove(0).to_multiset() =~= b.to_multiset().remove(b[0]));
        let ra = a.remove(0);
        let rb = b.remove(0);
        assert forall|i: int, j: int| 0 <= i < j < ra.len() implies key(#[trigger] ra[i]) < key(#[trigger] ra[j]) by {
            assert(ra[i] == a[i + 1] && ra[j] == a[j + 1]);
        }
        assert forall|i: int, j: int| 0 <= i < j < rb.len() implies key(#[trigger] rb[i]) < key(#[trigger] rb[j]) by {
            assert(rb[i] == b[i + 1] && rb[j] == b[j + 1]);
        }
        lemma_strictly_sorted_unique(ra, rb, key);
        assert(a =~= b) by {
            assert forall|i: int| 0 <= i < a.len() implies a[i] == b[i] by {
                if i > 0 {
                    assert(ra[i - 1] == rb[i - 1]);
                }
            }
        }
    }
}

/// Sorting items whose keys are all different orders them strictly.
pub proof fn lemma_sorted_distinct_keys<T>(sorted: Seq<((u64, u64, u64), T)>, input: Seq<((u64, u64, u64), T)>)
    requires
        keys_sorted(sorted),
        sorted.to_multiset() =~= input.to_multiset(),
        forall|a: int, b: int| 0 <= a < b < input.len() ==> input[a].0 != input[b].0,
    ensures
        forall|i: int, j: int| 0 <= i < j < sorted.len() ==> key_less(#[trigger] sorted[i].0, #[trigger] sorted[j].0),
{
    assert(input.no_duplicates()) by {
        assert forall|a: int, b: int| 0 <= a < input.len() && 0 <= b < input.len() && a != b implies input[a] != input[b] by {
            if a < b {
                assert(input[a].0 != input[b].0);
            } else {
                assert(input[b].0 != input[a].0);
            }
        }
    }
    input.lemma_multiset_has_no_duplicates();
    sorted.lemma_multiset_has_no_duplicates_conv();
    assert forall|i: int, j: int| 0 <= i < j < sorted.len() implies key_less(#[trigger] sorted[i].0, #[trigger] sorted[j].0) by {
        let a = lemma_member_of_permutation(sorted, input, i);
        let b = lemma_member_of_permutation(sorted, input, j);
        assert(sorted[i] != sorted[j]);
        assert(a != b);
        if a < b {
            assert(input[a].0 != input[b].0);
        } else {
            assert(input[b].0 != input[a].0);
        }
        assert(!key_less(sorted[j].0, sorted[i].0));
    }
}

} // verus!
