//! How often each symbol occurs.

use crate::types::NumBytes;
use std::collections::HashMap;
use std::hash::Hash;
use vstd::prelude::*;
use vstd::std_specs::hash::obeys_key_model;

verus! {

/// How often `x` occurs in `s`.
pub open spec fn occurrences<T>(s: Seq<T>, x: T) -> nat
    decreases s.len(),
{
    if s.len() == 0 {
        0
    } else {
        occurrences(s.drop_last(), x) + if s.last() == x {
            1nat
        } else {
            0nat
        }
    }
}

/// Whether `counts` holds exactly the symbols of `s`, each with the number of
/// times it occurs.
pub open spec fn is_count_of<T>(s: Seq<T>, counts: Map<T, usize>) -> bool {
    &&& forall|x: T| #[trigger] counts.contains_key(x) <==> s.contains(x)
    &&& forall|x: T| #[trigger] counts.contains_key(x) ==> counts[x] == occurrences(s, x)
}

/// A symbol occurs in `s` if and only if its count is not zero, and no count is
/// above the length.
pub proof fn lemma_occurrences<T>(s: Seq<T>, x: T)
    ensures
        occurrences(s, x) <= s.len(),
        occurrences(s, x) > 0 <==> s.contains(x),
    decreases s.len(),
{
    if s.len() > 0 {
        let head = s.drop_last();
        lemma_occurrences(head, x);
        if s.contains(x) && s.last() != x {
            let k = choose|k: int| 0 <= k < s.len() && s[k] == x;
            assert(head[k] == x);
        }
    }
}

/// Counts how often each symbol of `vec` occurs.
pub fn count_letters<T: NumBytes + Eq + Hash>(vec: &Vec<T>) -> (map: HashMap<T, usize>)
    ensures
        is_count_of(vec@, map@),
{
    proof {
        T::lemma_key_model();
    }
    let mut map: HashMap<T, usize> = HashMap::new();
    let mut i: usize = 0;
    while i < vec.len()
        invariant
            obeys_key_model::<T>(),
            i <= vec.len(),
            is_count_of(vec@.take(i as int), map@),
        decreases vec.len() - i,
    {
        let x = vec[i];
        let ghost head = vec@.take(i as int);
        let ghost longer = vec@.take(i + 1);
        proof {
            assert(longer.drop_last() == head);
            lemma_occurrences(head, x);
        }
        let n: usize = match map.get(&x) {
            Some(c) => *c,
            None => 0,
        };
        map.insert(x, n + 1);
        proof {
            assert forall|y: T| #[trigger] map@.contains_key(y) <==> longer.contains(y) by {
                lemma_occurrences(longer, y);
            }
        }
        i += 1;
    }
    assert(vec@.take(i as int) == vec@);
    map
}

} // verus!
