//! The order in which a report lists its lines: largest key first.

use vstd::prelude::*;

verus! {

/// How many indices at the head of `order` have a key of at least `key`.
pub open spec fn not_below_prefix(order: Seq<usize>, keys: Seq<usize>, key: usize) -> nat
    decreases order.len(),
{
    if order.len() > 0 && keys[order[0] as int] >= key {
        1 + not_below_prefix(order.drop_first(), keys, key)
    } else {
        0
    }
}

/// The first `n` indices of `keys`, the one with the largest key first, indices
/// with the same key in ascending order: each index in turn is put behind the
/// indices at the head whose keys are not below its own.
pub open spec fn descending_order(keys: Seq<usize>, n: nat) -> Seq<usize>
    decreases n,
{
    if n == 0 {
        Seq::empty()
    } else {
        let before = descending_order(keys, (n - 1) as nat);
        before.insert(not_below_prefix(before, keys, keys[n - 1]) as int, (n - 1) as usize)
    }
}

/// Whether `order` lists each of the first `n` indices of `keys` once, keys
/// falling, and indices rising where keys are the same.
pub open spec fn is_descending_order(keys: Seq<usize>, n: nat, order: Seq<usize>) -> bool {
    &&& order.len() == n
    &&& forall|a: int| 0 <= a < n ==> #[trigger] order[a] < n
    &&& forall|i: usize| i < n ==> #[trigger] order.contains(i)
    &&& forall|a: int, b: int|
        0 <= a < b < n ==> keys[#[trigger] order[a] as int] >= keys[#[trigger] order[b] as int]
    &&& forall|a: int, b: int|
        0 <= a < b < n && keys[#[trigger] order[a] as int] == keys[#[trigger] order[b] as int]
            ==> order[a] < order[b]
}

/// `not_below_prefix` counts a head of `order` whose keys are not below `key`,
/// and stops at a key that is.
pub proof fn lemma_not_below_prefix(order: Seq<usize>, keys: Seq<usize>, key: usize)
    ensures
        not_below_prefix(order, keys, key) <= order.len(),
        forall|a: int|
            0 <= a < not_below_prefix(order, keys, key) ==> keys[#[trigger] order[a] as int] >= key,
        not_below_prefix(order, keys, key) < order.len() ==> keys[order[not_below_prefix(
            order,
            keys,
            key,
        ) as int] as int] < key,
    decreases order.len(),
{
    if order.len() > 0 && keys[order[0] as int] >= key {
        let rest = order.drop_first();
        lemma_not_below_prefix(rest, keys, key);
        let p = not_below_prefix(order, keys, key);
        assert forall|a: int| 0 <= a < p implies keys[#[trigger] order[a] as int] >= key by {
            if a > 0 {
                assert(order[a] == rest[a - 1]);
            }
        }
    }
}

/// `descending_order` is what its name says.
pub proof fn lemma_descending_order(keys: Seq<usize>, n: nat)
    requires
        n <= keys.len(),
        n <= usize::MAX,
    ensures
        is_descending_order(keys, n, descending_order(keys, n)),
    decreases n,
{
    if n > 0 {
        let m = (n - 1) as nat;
        let before = descending_order(keys, m);
        lemma_descending_order(keys, m);
        let key = keys[n - 1];
        lemma_not_below_prefix(before, keys, key);
        let p = not_below_prefix(before, keys, key) as int;
        let order = descending_order(keys, n);
        assert forall|i: usize| i < n implies #[trigger] order.contains(i) by {
            if i < m {
                assert(before.contains(i));
                let a = before.index_of(i);
                if a < p {
                    assert(order[a] == i);
                } else {
                    assert(order[a + 1] == i);
                }
            } else {
                assert(order[p] == i);
            }
        }
    }
}

/// Orders the indices of `keys`: the one with the largest key first, indices with
/// the same key in ascending order.
pub fn order_descending(keys: &Vec<usize>) -> (order: Vec<usize>)
    ensures
        order@ == descending_order(keys@, keys@.len()),
        is_descending_order(keys@, keys@.len(), order@),
{
    let mut order: Vec<usize> = Vec::with_capacity(keys.len());
    let mut i: usize = 0;
    while i < keys.len()
        invariant
            i <= keys.len(),
            order@ == descending_order(keys@, i as nat),
            is_descending_order(keys@, i as nat, order@),
        decreases keys.len() - i,
    {
        let key = keys[i];
        let ghost before = order@;
        proof {
            lemma_not_below_prefix(before, keys@, key);
        }
        let mut at: usize = 0;
        let mut high: usize = order.len();
        while at < high
            invariant
                i < keys.len(),
                order@ == before,
                is_descending_order(keys@, i as nat, before),
                at <= not_below_prefix(before, keys@, key) <= high <= before.len(),
                forall|a: int|
                    0 <= a < not_below_prefix(before, keys@, key) ==> keys@[#[trigger] before[a] as int]
                        >= key,
                not_below_prefix(before, keys@, key) < before.len() ==> keys@[before[not_below_prefix(
                    before,
                    keys@,
                    key,
                ) as int] as int] < key,
            decreases high - at,
        {
            let middle = at + (high - at) / 2;
            if keys[order[middle]] >= key {
                at = middle + 1;
            } else {
                high = middle;
            }
        }
        order.insert(at, i);
        proof {
            lemma_descending_order(keys@, (i + 1) as nat);
        }
        i += 1;
    }
    order
}

} // verus!
