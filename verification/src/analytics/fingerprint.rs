//! Finding a word again among many: words are looked up by a number computed
//! from their symbols, and compared only with the words that have the same number.

use crate::analytics::word_index::word_at;
use crate::types::NumBytes;
use std::collections::HashMap;
use vstd::prelude::*;

verus! {

/// The fingerprint of the empty word.
pub const FINGERPRINT_START: u64 = 0xcbf2_9ce4_8422_2325;

/// What each symbol multiplies the fingerprint by.
pub const FINGERPRINT_FACTOR: u64 = 0x100_0000_01b3;

/// The fingerprint `h` of a word, carried on over one more symbol with the
/// number `v`.
pub open spec fn mixed(h: u64, v: u128) -> u64 {
    ((h as int * FINGERPRINT_FACTOR as int + v as int % 0x1_0000_0000_0000_0000 + v as int
        / 0x1_0000_0000_0000_0000) % 0x1_0000_0000_0000_0000) as u64
}

/// The fingerprint of a word. Words with the same symbols have the same
/// fingerprint; words with the same fingerprint need not have the same symbols.
pub open spec fn fingerprint_of<T: NumBytes>(word: Seq<T>) -> u64
    decreases word.len(),
{
    if word.len() == 0 {
        FINGERPRINT_START
    } else {
        mixed(fingerprint_of(word.drop_last()), word.last().value() as u128)
    }
}

/// Carries the fingerprint `h` on over one more symbol with the number `v`.
pub fn mix(h: u64, v: u128) -> (r: u64)
    ensures
        r == mixed(h, v),
{
    let low: u128 = v % 0x1_0000_0000_0000_0000;
    let high: u128 = v / 0x1_0000_0000_0000_0000;
    let product: u128 = h as u128 * FINGERPRINT_FACTOR as u128;
    ((product + low + high) % 0x1_0000_0000_0000_0000) as u64
}

/// The fingerprint of the word of `length` symbols at `start`.
pub fn fingerprint<T: NumBytes>(vec: &Vec<T>, start: usize, length: usize) -> (h: u64)
    requires
        start + length <= vec.len(),
    ensures
        h == fingerprint_of(word_at(vec@, start as int, length as int)),
{
    let mut h: u64 = FINGERPRINT_START;
    let mut k: usize = 0;
    while k < length
        invariant
            start + length <= vec.len(),
            k <= length,
            h == fingerprint_of(word_at(vec@, start as int, k as int)),
        decreases length - k,
    {
        proof {
            let longer = word_at(vec@, start as int, k + 1);
            assert(longer.drop_last() == word_at(vec@, start as int, k as int));
        }
        h = mix(h, vec[start + k].to_u128());
        k += 1;
    }
    h
}

/// For each fingerprint the ids of the words that have it.
pub struct IdIndex {
    lists: HashMap<u64, Vec<usize>>,
}

impl IdIndex {
    /// The ids listed under the fingerprint `h`, in the order in which they were
    /// added.
    pub closed spec fn ids(&self, h: u64) -> Seq<usize> {
        if self.lists@.contains_key(h) {
            self.lists@[h]@
        } else {
            Seq::empty()
        }
    }

    /// An index without ids.
    pub fn new() -> (index: IdIndex)
        ensures
            forall|h: u64| #[trigger] index.ids(h) == Seq::<usize>::empty(),
    {
        IdIndex { lists: HashMap::new() }
    }

    /// The ids listed under the fingerprint `h`, if there are any.
    pub fn get(&self, h: u64) -> (list: Option<&Vec<usize>>)
        ensures
            (match list {
                Some(ids) => ids@ == self.ids(h),
                None => self.ids(h) == Seq::<usize>::empty(),
            }),
    {
        self.lists.get(&h)
    }

    /// Lists `id` under the fingerprint `h`, behind the ids that stand there.
    pub fn add(&mut self, h: u64, id: usize)
        ensures
            final(self).ids(h) == old(self).ids(h).push(id),
            forall|other: u64| other != h ==> #[trigger] final(self).ids(other) == old(self).ids(other),
    {
        let mut list: Vec<usize> = match self.lists.remove(&h) {
            Some(found) => found,
            None => Vec::new(),
        };
        list.push(id);
        self.lists.insert(h, list);
    }
}

/// Whether `index` lists each of the `words` under its fingerprint, by its
/// place in `words`, and lists nothing else.
pub open spec fn indexes<T: NumBytes>(index: IdIndex, words: Seq<Seq<T>>) -> bool {
    &&& forall|k: int|
        0 <= k < words.len() ==> index.ids(fingerprint_of(#[trigger] words[k])).contains(k as usize)
    &&& forall|h: u64, j: int|
        0 <= j < index.ids(h).len() ==> (#[trigger] index.ids(h)[j]) < words.len()
}

/// A word that is added under its fingerprint, by its place, is in the index
/// with the words before it.
pub proof fn lemma_indexes_one_more<T: NumBytes>(
    before: IdIndex,
    after: IdIndex,
    words: Seq<Seq<T>>,
    word: Seq<T>,
)
    requires
        indexes(before, words),
        words.len() < usize::MAX,
        after.ids(fingerprint_of(word)) == before.ids(fingerprint_of(word)).push(
            words.len() as usize,
        ),
        forall|other: u64|
            other != fingerprint_of(word) ==> #[trigger] after.ids(other) == before.ids(other),
    ensures
        indexes(after, words.push(word)),
{
    let h = fingerprint_of(word);
    let longer = words.push(word);
    let id = words.len() as usize;
    assert forall|k: int| 0 <= k < longer.len() implies after.ids(
        fingerprint_of(#[trigger] longer[k]),
    ).contains(k as usize) by {
        if k < words.len() {
            let list = before.ids(fingerprint_of(words[k]));
            let at = list.index_of(k as usize);
            if fingerprint_of(words[k]) == h {
                assert(list.push(id)[at] == k as usize);
            }
        } else {
            assert(before.ids(h).push(id)[before.ids(h).len() as int] == id);
        }
    }
}

} // verus!
