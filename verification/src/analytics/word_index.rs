//! The start positions of a sequence, grouped by the word that starts there.

use crate::analytics::fingerprint::{fingerprint, indexes, lemma_indexes_one_more, IdIndex};
use crate::analytics::repeats::ascending;
use crate::types::{same_symbol, NumBytes};
use vstd::prelude::*;

verus! {

/// The `length` symbols of `s` from `start` on.
pub open spec fn word_at<T>(s: Seq<T>, start: int, length: int) -> Seq<T> {
    s.subrange(start, start + length)
}

/// How many start positions are indexed: every position at which a word of
/// `min_length` symbols fits, but none at all unless two such positions exist.
pub open spec fn window_count(len: nat, min_length: nat) -> nat {
    if len <= min_length {
        0
    } else {
        (len - min_length + 1) as nat
    }
}

/// The groups as lists of positions.
pub open spec fn group_lists(groups: Seq<Vec<usize>>) -> Seq<Seq<usize>> {
    Seq::new(groups.len(), |g: int| groups[g]@)
}

/// Whether position `p` stands in one of the groups.
pub open spec fn listed(lists: Seq<Seq<usize>>, p: int) -> bool {
    exists|g: int, k: int|
        0 <= g < lists.len() && 0 <= k < lists[g].len() && #[trigger] lists[g][k] == p
}

/// Whether `lists` groups the first `count` positions of `s` by the word of
/// `min_length` symbols that starts there: each position stands in one group, a
/// group holds the positions of one word in ascending order, two groups belong to
/// different words, and the groups stand in the order of their first positions.
pub open spec fn is_word_index<T>(
    s: Seq<T>,
    min_length: nat,
    lists: Seq<Seq<usize>>,
    count: nat,
) -> bool {
    &&& forall|g: int| 0 <= g < lists.len() ==> (#[trigger] lists[g]).len() > 0 && ascending(lists[g])
    &&& forall|g: int, k: int|
        0 <= g < lists.len() && 0 <= k < lists[g].len() ==> (#[trigger] lists[g][k]) < count
            && word_at(s, lists[g][k] as int, min_length as int) == word_at(
            s,
            lists[g][0] as int,
            min_length as int,
        )
    &&& forall|g: int, h: int|
        0 <= g < lists.len() && 0 <= h < lists.len() && g != h ==> word_at(
            s,
            (#[trigger] lists[g])[0] as int,
            min_length as int,
        ) != word_at(s, (#[trigger] lists[h])[0] as int, min_length as int)
    &&& forall|g: int, h: int|
        0 <= g < h < lists.len() ==> (#[trigger] lists[g])[0] < (#[trigger] lists[h])[0]
    &&& forall|p: int| 0 <= p < count ==> #[trigger] listed(lists, p)
}

/// Whether the words of `length` symbols at `a` and at `b` are the same.
pub fn same_window<T: NumBytes>(vec: &Vec<T>, a: usize, b: usize, length: usize) -> (r: bool)
    requires
        a + length <= vec.len(),
        b + length <= vec.len(),
    ensures
        r == (word_at(vec@, a as int, length as int) == word_at(vec@, b as int, length as int)),
{
    let ghost x = word_at(vec@, a as int, length as int);
    let ghost y = word_at(vec@, b as int, length as int);
    let mut k: usize = 0;
    while k < length
        invariant
            a + length <= vec.len(),
            b + length <= vec.len(),
            k <= length,
            x == word_at(vec@, a as int, length as int),
            y == word_at(vec@, b as int, length as int),
            forall|i: int| 0 <= i < k ==> x[i] == y[i],
        decreases length - k,
    {
        if !same_symbol(vec[a + k], vec[b + k]) {
            assert(x[k as int] != y[k as int]);
            return false;
        }
        k += 1;
    }
    assert(x =~= y);
    true
}

/// The word of each group.
pub open spec fn group_words<T>(s: Seq<T>, min_length: nat, lists: Seq<Seq<usize>>) -> Seq<Seq<T>> {
    Seq::new(lists.len(), |g: int| word_at(s, lists[g][0] as int, min_length as int))
}

/// Puts position `i` into the group of its word, or into a new group at the end
/// if no group has that word yet. The group is looked up in `index`, which lists
/// each group under the fingerprint of its word.
pub fn add_position<T: NumBytes>(
    groups: &mut Vec<Vec<usize>>,
    index: &mut IdIndex,
    vec: &Vec<T>,
    min_length: usize,
    i: usize,
)
    requires
        i + min_length <= vec.len(),
        is_word_index(vec@, min_length as nat, group_lists(old(groups)@), i as nat),
        indexes(*old(index), group_words(vec@, min_length as nat, group_lists(old(groups)@))),
    ensures
        is_word_index(vec@, min_length as nat, group_lists(final(groups)@), (i + 1) as nat),
        indexes(*final(index), group_words(vec@, min_length as nat, group_lists(final(groups)@))),
{
    let ghost before = group_lists(groups@);
    let ghost words = group_words(vec@, min_length as nat, before);
    let ghost word = word_at(vec@, i as int, min_length as int);
    let h = fingerprint(vec, i, min_length);
    match index.get(h) {
        Some(ids) => {
            let mut k: usize = 0;
            while k < ids.len()
                invariant
                    i + min_length <= vec.len(),
                    k <= ids.len(),
                    ids@ == index.ids(h),
                    group_lists(groups@) == before,
                    words == group_words(vec@, min_length as nat, before),
                    word == word_at(vec@, i as int, min_length as int),
                    is_word_index(vec@, min_length as nat, before, i as nat),
                    indexes(*index, words),
                    forall|j: int| 0 <= j < k ==> words[ids@[j] as int] != word,
                decreases ids.len() - k,
            {
                let g = ids[k];
                assert(before[g as int] == groups@[g as int]@);
                if same_window(vec, groups[g][0], i, min_length) {
                    groups[g].push(i);
                    proof {
                        let after = group_lists(groups@);
                        lemma_extend_group(vec@, min_length as nat, before, g as int, i as nat);
                        assert(after =~= before.update(g as int, before[g as int].push(i)));
                        assert(group_words(vec@, min_length as nat, after) =~= words);
                    }
                    return ;
                }
                k += 1;
            }
        },
        None => {},
    }
    proof {
        assert(before.len() == groups.len());
        assert forall|g: int| 0 <= g < before.len() implies word_at(
            vec@,
            (#[trigger] before[g])[0] as int,
            min_length as int,
        ) != word by {
            assert(words[g] != word);
        }
    }
    let ghost old_index = *index;
    let mut list: Vec<usize> = Vec::new();
    list.push(i);
    groups.push(list);
    let id = groups.len() - 1;
    index.add(h, id);
    proof {
        let after = group_lists(groups@);
        lemma_new_group(vec@, min_length as nat, before, i as nat);
        assert(after =~= before.push(seq![i]));
        assert(group_words(vec@, min_length as nat, after) =~= words.push(word));
        lemma_indexes_one_more(old_index, *index, words, word);
    }
}

/// Groups the start positions of `vec` by the word of `min_length` symbols that
/// starts there. A sequence of at most `min_length` symbols has no groups.
pub fn index_words<T: NumBytes>(vec: &Vec<T>, min_length: usize) -> (groups: Vec<Vec<usize>>)
    ensures
        is_word_index(
            vec@,
            min_length as nat,
            group_lists(groups@),
            window_count(vec@.len(), min_length as nat),
        ),
{
    let mut groups: Vec<Vec<usize>> = Vec::new();
    if vec.len() <= min_length {
        return groups;
    }
    let mut index = IdIndex::new();
    let last: usize = vec.len() - min_length;
    let mut i: usize = 0;
    while i < last
        invariant
            last == vec.len() - min_length,
            i <= last,
            is_word_index(vec@, min_length as nat, group_lists(groups@), i as nat),
            indexes(index, group_words(vec@, min_length as nat, group_lists(groups@))),
        decreases last - i,
    {
        add_position(&mut groups, &mut index, vec, min_length, i);
        i += 1;
    }
    add_position(&mut groups, &mut index, vec, min_length, last);
    groups
}

/// A position whose word is that of group `g` can join that group.
proof fn lemma_extend_group<T>(
    s: Seq<T>,
    min_length: nat,
    lists: Seq<Seq<usize>>,
    g: int,
    i: nat,
)
    requires
        is_word_index(s, min_length, lists, i),
        0 <= g < lists.len(),
        i <= usize::MAX,
        word_at(s, lists[g][0] as int, min_length as int) == word_at(
            s,
            i as int,
            min_length as int,
        ),
    ensures
        is_word_index(s, min_length, lists.update(g, lists[g].push(i as usize)), i + 1),
{
    let after = lists.update(g, lists[g].push(i as usize));
    assert forall|p: int| 0 <= p < i + 1 implies #[trigger] listed(after, p) by {
        if p < i {
            assert(listed(lists, p));
            let (h, k) = choose|h: int, k: int|
                0 <= h < lists.len() && 0 <= k < lists[h].len() && #[trigger] lists[h][k] == p;
            assert(after[h][k] == p);
        } else {
            assert(after[g][lists[g].len() as int] == p);
        }
    }
}

/// A position whose word is that of no group starts a group of its own.
proof fn lemma_new_group<T>(s: Seq<T>, min_length: nat, lists: Seq<Seq<usize>>, i: nat)
    requires
        is_word_index(s, min_length, lists, i),
        i <= usize::MAX,
        forall|h: int|
            0 <= h < lists.len() ==> word_at(s, (#[trigger] lists[h])[0] as int, min_length as int)
                != word_at(s, i as int, min_length as int),
    ensures
        is_word_index(s, min_length, lists.push(seq![i as usize]), i + 1),
{
    let after = lists.push(seq![i as usize]);
    let n = lists.len() as int;
    assert forall|p: int| 0 <= p < i + 1 implies #[trigger] listed(after, p) by {
        if p < i {
            assert(listed(lists, p));
            let (h, k) = choose|h: int, k: int|
                0 <= h < lists.len() && 0 <= k < lists[h].len() && #[trigger] lists[h][k] == p;
            assert(after[h][k] == p);
        } else {
            assert(after[n][0] == p);
        }
    }
}

} // verus!
